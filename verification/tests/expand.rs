use steno::viz::group_key;
use steno::{
    build_type_set, expand_all, expand_counts, expand_dict, expand_line_flag, fix_family_terminals, parse_source,
    parse_template, render_plain, Chunk, Entry, EntryFlags, TypedEntry, ITERATION_BASE,
};

const CORPUS: &str = "````STR\nstring\n````\n@type\n````TPH\nnumber\n````\n@type\n````KWR\nArray<%t>\n````\n@type\n@arity 1\n````HRET\nlet %0: %t\n````\n````TKPW\nif (%0) {%b%1%b}\n````\n";

fn lit_text(cs: &[Chunk]) -> String {
    let mut s = String::new();
    for c in cs {
        match c {
            Chunk::Lit(t) => s.push_str(t),
            Chunk::Landing(n) => s.push_str(&format!("%{}", n)),
            other => s.push_str(&format!("<{}>", other.kind_name())),
        }
    }
    s
}

fn typed(stroke: &str, template: &str, terminal: bool) -> TypedEntry {
    let source = Entry {
        stroke: stroke.split('/').map(String::from).collect(),
        stroke_raw: stroke.to_string(),
        template: parse_template(template, 1).expect("parses"),
        raw: template.to_string(),
        count: None,
        arity: None,
        flags: EntryFlags::none(),
        line: 1,
    };
    TypedEntry {
        stroke: stroke.to_string(),
        template: parse_template(template, 1).expect("parses"),
        terminal,
        one_liner: false,
        count: None,
        type_label: None,
        source,
    }
}

#[test]
fn iteration_base_is_zero() {
    assert_eq!(ITERATION_BASE, 0);
}

#[test]
fn count_entries_fan_out_over_the_bank() {
    let es = parse_source("````STK\nf(%[, |a%d%])\n````\n@count FR\n").expect("parses");
    let xs = expand_counts(&es[0]).expect("expands");
    let strokes: Vec<&str> = xs.iter().map(|x| x.stroke.as_str()).collect();
    assert_eq!(strokes, vec!["STK", "STK-F", "STK-R", "STK-FR"]);
    let texts: Vec<String> = xs.iter().map(|x| lit_text(&x.template)).collect();
    assert_eq!(texts, vec!["f()", "f(a0)", "f(a0, a1)", "f(a0, a1, a2)"]);
    let counts: Vec<Option<u32>> = xs.iter().map(|x| x.count).collect();
    assert_eq!(counts, vec![Some(0), Some(1), Some(2), Some(3)]);
}

#[test]
fn dcount_outside_a_repeat_is_the_total() {
    let es = parse_source("````S/T\nn=%d\n````\n@count A\n").expect("parses");
    let xs = expand_counts(&es[0]).expect("expands");
    let strokes: Vec<&str> = xs.iter().map(|x| x.stroke.as_str()).collect();
    assert_eq!(strokes, vec!["S/T", "S/TA"]);
    assert_eq!(lit_text(&xs[1].template), "n=1");
}

#[test]
fn computed_landings_resolve_per_iteration() {
    let es = parse_source("````S\n%[%(d+1)%]\n````\n@count A\n").expect("parses");
    let xs = expand_counts(&es[0]).expect("expands");
    assert_eq!(lit_text(&xs[1].template), "%1");
}

#[test]
fn count_misconfigurations_are_errors() {
    let msg = |src: &str| {
        let es = parse_source(src).expect("parses");
        expand_counts(&es[0]).err().expect("rejected").message().to_string()
    };
    assert_eq!(msg("````S\nx\n````\n@count A\n"), "\"S\" has @count but no count operator in its template");
    assert_eq!(msg("````S\n%d\n````\n"), "\"S\" uses a count operator but has no @count");
    assert_eq!(msg("````S\n%[%(d-1)%]\n````\n@count A\n"), "computed landing resolves to -1 (< 0) at d=0");
    assert_eq!(msg("````S\n%d\n````\n@count K\n"), "@count key \"K\" is not a vowel or right-bank key");
    assert_eq!(msg("````SA\n%d\n````\n@count A\n"), "count key \"A\" already present in \"SA\"");
}

#[test]
fn end_landings_count_back_from_the_last() {
    let es = parse_source("````S\na%0b%<0>\n````\n").expect("parses");
    let xs = expand_counts(&es[0]).expect("expands");
    assert_eq!(lit_text(&xs[0].template), "a%0b%1");
    let es = parse_source("````S\n%<1>\n````\n").expect("parses");
    assert_eq!(
        expand_counts(&es[0]).err().expect("rejected").message(),
        "%<1> resolves before enough landings exist (only 1 total)"
    );
}

#[test]
fn pass_through_keeps_the_raw_stroke() {
    let es = parse_source("````STKWR-PBGS / -FLT\nf\n````\n").expect("parses");
    let xs = expand_all(&es).expect("expands");
    assert_eq!(xs.len(), 1);
    assert_eq!(xs[0].stroke, "STKWR-PBGS / -FLT");
    assert_eq!(xs[0].count, None);
}

#[test]
fn type_set_collects_types_and_the_generic_pool() {
    let es = parse_source(CORPUS).expect("parses");
    let ts = build_type_set(&es).expect("builds");
    let strokes: Vec<&str> = ts.types.iter().map(|t| t.stroke.as_str()).collect();
    assert_eq!(strokes, vec!["STR", "TPH", "KWR"]);
    assert_eq!(ts.types[2].arity, 1);
    assert_eq!(ts.types[2].text, "Array<%t>");
    let pool: Vec<&str> = ts.arity0.iter().map(|t| t.stroke.as_str()).collect();
    assert_eq!(pool, vec!["STR", "TPH"]);
}

#[test]
fn type_entries_reject_other_chunks() {
    let es = parse_source("````T\nx%0\n````\n@type\n").expect("parses");
    assert_eq!(build_type_set(&es).err().expect("rejected").message(), "@type entry has an unexpected chunk \"landing\"");
}

#[test]
fn expand_dict_builds_type_chains_and_one_liners() {
    let es = parse_source(CORPUS).expect("parses");
    let typed = expand_dict(&es, None).expect("expands");
    let strokes: Vec<&str> = typed.iter().map(|t| t.stroke.as_str()).collect();
    assert_eq!(
        strokes,
        vec!["HRET", "HRET/STR", "HRET/TPH", "HRET/KWR", "HRET/KWR/STR", "HRET/KWR/TPH", "TKPW", "TKPWU"]
    );
    let terminal: Vec<bool> = typed.iter().map(|t| t.terminal).collect();
    assert_eq!(terminal, vec![false, true, true, false, true, true, true, true]);
    let labels: Vec<Option<&str>> = typed.iter().map(|t| t.type_label.as_deref()).collect();
    assert_eq!(
        labels,
        vec![None, Some("string"), Some("number"), Some("Array"), Some("Array<string>"), Some("Array<number>"), None, None]
    );
    assert_eq!(lit_text(&typed[4].template), "let %0: Array<string>");
    assert!(typed[7].one_liner);
    assert!(!typed[6].one_liner);
    let (_, v) = render_plain(&typed[3]).expect("renders");
    assert_eq!(v, "{^}let : Array{^}");
}

#[test]
fn expand_dict_restricts_the_generic_pool() {
    let es = parse_source(CORPUS).expect("parses");
    let typed = expand_dict(&es, Some(&["STR"][..])).expect("expands");
    let strokes: Vec<&str> = typed.iter().map(|t| t.stroke.as_str()).collect();
    assert_eq!(strokes, vec!["HRET", "HRET/STR", "HRET/TPH", "HRET/KWR", "HRET/KWR/STR", "TKPW", "TKPWU"]);
}

#[test]
fn fused_constructs_merge_the_shape_into_the_first_type() {
    let src = "````STR\nstring\n````\n@type\n````KWR\nArray<%t>\n````\n@type\n@arity 1\n````TKPW/-R\n(): %t\n````\n@fuse\n";
    let es = parse_source(src).expect("parses");
    let typed = expand_dict(&es, None).expect("expands");
    let strokes: Vec<&str> = typed.iter().map(|t| t.stroke.as_str()).collect();
    assert_eq!(strokes, vec!["TKPW/STR-R", "TKPW/KWR-R", "TKPW/KWR-R/STR"]);
    assert_eq!(lit_text(&typed[2].template), "(): Array<string>");
    assert!(!typed[1].terminal);
}

#[test]
fn fuse_conflicts_are_errors() {
    let src = "````-R\nx\n````\n@type\n````TKPW/-R\n%t\n````\n@fuse\n";
    let es = parse_source(src).expect("parses");
    assert_eq!(
        expand_dict(&es, None).err().expect("rejected").message(),
        "merge conflict on \"R\" in \"-R\" + \"-R\""
    );
}

#[test]
fn multiline_constructs_get_no_one_liner() {
    let es = parse_source("````TKPW\nif {%b%0%b}\n````\n@multiline\n").expect("parses");
    let typed = expand_dict(&es, None).expect("expands");
    assert_eq!(typed.len(), 1);
}

#[test]
fn multi_slot_entries_fill_every_slot_from_the_pool() {
    let src = "````STR\nstring\n````\n@type\n````P\n(%t, %t)\n````\n";
    let es = parse_source(src).expect("parses");
    let typed = expand_dict(&es, None).expect("expands");
    let strokes: Vec<&str> = typed.iter().map(|t| t.stroke.as_str()).collect();
    assert_eq!(strokes, vec!["P", "P/STR", "P/STR/STR"]);
    let terminal: Vec<bool> = typed.iter().map(|t| t.terminal).collect();
    assert_eq!(terminal, vec![false, false, true]);
    assert_eq!(lit_text(&typed[2].template), "(string, string)");
}

#[test]
fn family_roots_are_never_terminal() {
    let mut v = vec![typed("A", "a", true), typed("A/B", "ab", true), typed("C", "c", true)];
    fix_family_terminals(&mut v);
    let terminal: Vec<bool> = v.iter().map(|t| t.terminal).collect();
    assert_eq!(terminal, vec![false, true, true]);
    let strokes: Vec<&str> = v.iter().map(|t| t.stroke.as_str()).collect();
    assert_eq!(strokes, vec!["A", "A/B", "C"]);
}

#[test]
fn line_flag_adds_u_to_the_first_stroke() {
    let v = vec![typed("TKPW/STR", "a%bb", true), typed("S", "x%by", false), typed("T", "xy", true)];
    let out = expand_line_flag(&v).expect("expands");
    let strokes: Vec<&str> = out.iter().map(|t| t.stroke.as_str()).collect();
    assert_eq!(strokes, vec!["TKPW/STR", "TKPWU/STR", "S", "T"]);
    assert!(out[1].one_liner);
}

#[test]
fn line_flag_fails_when_u_is_taken() {
    let v = vec![typed("TU", "a%bb", true)];
    assert_eq!(expand_line_flag(&v).err().expect("rejected").message(), "key \"U\" already in \"TU\"");
}

#[test]
fn one_liner_groups_with_its_sibling() {
    for stroke in ["TKPW/STR", "-T", "KPA*", "S/T/K"] {
        let v = vec![typed(stroke, "a%bb", true)];
        let out = expand_line_flag(&v).expect("expands");
        assert!(out[1].one_liner);
        assert_eq!(group_key(&out[0]), Ok(stroke.to_string()));
        assert_eq!(group_key(&out[1]), group_key(&out[0]));
    }
}

#[test]
fn family_fix_is_idempotent() {
    let mut v = vec![typed("A", "a", true), typed("A/B", "ab", true), typed("A/B/C", "abc", true), typed("C", "c", true)];
    fix_family_terminals(&mut v);
    let once: Vec<(String, bool)> = v.iter().map(|t| (t.stroke.clone(), t.terminal)).collect();
    fix_family_terminals(&mut v);
    let twice: Vec<(String, bool)> = v.iter().map(|t| (t.stroke.clone(), t.terminal)).collect();
    assert_eq!(once, twice);
    assert_eq!(
        once,
        vec![("A".to_string(), false), ("A/B".to_string(), false), ("A/B/C".to_string(), true), ("C".to_string(), true)]
    );
}

#[test]
fn family_roots_are_slash_prefixes_only() {
    let mut v = vec![typed("TK", "a", true), typed("TKPW", "b", true), typed("TK/PW/HR", "c", true), typed("TK/PW", "d", true)];
    fix_family_terminals(&mut v);
    let terminal: Vec<bool> = v.iter().map(|t| t.terminal).collect();
    assert_eq!(terminal, vec![false, true, true, false]);
}

#[test]
fn line_flag_fails_on_the_first_eligible_entry_that_cannot_take_u() {
    let v = vec![typed("SU", "x%by", false), typed("TU", "a%bb", true), typed("KU", "a%bb", true)];
    assert_eq!(expand_line_flag(&v).err().expect("rejected").message(), "key \"U\" already in \"TU\"");
    let ok = vec![typed("SU", "x%by", false), typed("T", "ab", true), typed("K/S", "a%bb", true)];
    let out = expand_line_flag(&ok).expect("expands");
    let strokes: Vec<&str> = out.iter().map(|t| t.stroke.as_str()).collect();
    assert_eq!(strokes, vec!["SU", "T", "K/S", "KU/S"]);
}
