use steno::report::{collision_note, guard_keysets, guard_strokes, kb, measure_row, no_params, str_less, unique_sorted};
use steno::{build_plain_dict, build_smart_dict, parse_source, parse_template, Chunk, Entry, EntryFlags, TypedEntry};

fn strs(v: &[&str]) -> Vec<String> {
    v.iter().map(|s| s.to_string()).collect()
}

fn typed(stroke: &str, template: &str) -> TypedEntry {
    let source = Entry {
        stroke: vec![stroke.to_string()],
        stroke_raw: stroke.to_string(),
        template: parse_template(template, 1).expect("parses"),
        raw: template.to_string(),
        count: None,
        arity: None,
        flags: EntryFlags::none(),
        line: 1,
    };
    TypedEntry {
        stroke: stroke.to_string(),
        template: parse_template(template, 1).expect("parses"),
        terminal: true,
        one_liner: false,
        count: None,
        type_label: None,
        source,
    }
}

#[test]
fn string_order_matches_str() {
    for (a, b) in [("a", "b"), ("ab", "a"), ("", "a"), ("a", "a"), ("Z", "a"), ("é", "z")] {
        assert_eq!(str_less(a, b), a < b, "{:?} < {:?}", a, b);
    }
}

#[test]
fn unique_sorted_dedups_and_orders() {
    assert_eq!(unique_sorted(&strs(&["b", "a", "b", "c", "a"])), strs(&["a", "b", "c"]));
    assert!(unique_sorted(&Vec::new()).is_empty());
}

#[test]
fn stroke_guard_reports_distinct_collisions_in_order() {
    assert_eq!(guard_strokes("plain", &Vec::new()), Ok(()));
    assert_eq!(
        guard_strokes("plain", &strs(&["TPH", "A", "TPH"])),
        Err("ERROR (plain): 2 stroke collision(s):\n  A\n  TPH".to_string())
    );
}

#[test]
fn keyset_guard_reports_distinct_collisions_in_order() {
    assert_eq!(guard_keysets(&Vec::new()), Ok(()));
    assert_eq!(guard_keysets(&strs(&["x"])), Err("ERROR: 1 keyset collision(s):\n  x".to_string()));
}

#[test]
fn collision_notes_and_sizes() {
    let entries = vec![typed("A", "x"), typed("A", "y"), typed("A", "z")];
    let plain = build_plain_dict(&entries).expect("builds");
    assert_eq!(plain.collisions, strs(&["A", "A"]));
    assert_eq!(collision_note(&plain), "  (1 collisions!)");
    let clean = build_plain_dict(&vec![typed("A", "x")]).expect("builds");
    assert_eq!(collision_note(&clean), "");
    assert_eq!(kb(&clean), 0);
    let big = build_plain_dict(&vec![typed("A", &"x".repeat(3000))]).expect("builds");
    assert_eq!(kb(&big), (3000 + 18) / 1024);
}

#[test]
fn measure_row_formats_like_the_size_matrix() {
    let entries = vec![typed("A", "x"), typed("B", "y")];
    let plain = build_plain_dict(&entries).expect("builds");
    let smart = build_smart_dict(&entries).expect("builds");
    let row = measure_row("all arity-0 (14)", &plain, &smart);
    let want = format!(
        "  {:<32} {:>6} strokes  plain {:>5} KB  smart {:>5} KB  both {:>5} KB{}",
        "all arity-0 (14)", 2, 0, 0, 0, ""
    );
    assert_eq!(row, want);
}

#[test]
fn no_params_swaps_listed_function_templates() {
    let src = "````STKWR-PBGS/-FLT\nfunction %0(%[, |%(d)%]): %t {%b%1}\n````\n@count AOE\n````S\nx\n````\n";
    let es = parse_source(src).expect("parses");
    let np = no_params(&es).expect("swaps");
    assert_eq!(np.len(), 2);
    assert_eq!(np[0].count, None);
    assert_eq!(np[0].stroke_raw, "STKWR-PBGS/-FLT");
    let kinds: Vec<&str> = np[0].template.iter().map(Chunk::kind_name).collect();
    assert_eq!(kinds, vec!["lit", "landing", "lit", "typeslot", "lit", "brace", "bodybreak", "landing", "brace"]);
    assert_eq!(np[1].raw, "x");
    assert_eq!(np[1].template.len(), 1);
}
