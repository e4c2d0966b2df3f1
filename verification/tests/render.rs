use steno::{
    build_plain_dict, build_smart_dict, emit_struct, interpret, parse_template, render_plain, render_smart,
    serialize, struct_text, Behaviors, Chunk, Entry, EntryFlags, TypedEntry,
};

fn entry(stroke: &str, template: &str, terminal: bool) -> TypedEntry {
    let chunks = parse_template(template, 1).expect("template parses");
    let source = Entry {
        stroke: vec![stroke.to_string()],
        stroke_raw: stroke.to_string(),
        template: parse_template(template, 1).expect("template parses"),
        raw: template.to_string(),
        count: None,
        arity: None,
        flags: EntryFlags::none(),
        line: 1,
    };
    TypedEntry {
        stroke: stroke.to_string(),
        template: chunks,
        terminal,
        one_liner: false,
        count: None,
        type_label: None,
        source,
    }
}

#[test]
fn plain_types_every_closer_and_walks_back() {
    let (k, v) = render_plain(&entry("TP-PB", "f(%0)", true)).expect("renders");
    assert_eq!(k, "TP-PB");
    assert_eq!(v, "{^}f(){#Left}{^}");
}

#[test]
fn smart_drops_trailing_auto_closers() {
    let (k, v) = render_smart(&entry("TP-PB", "f(%0)", true)).expect("renders");
    assert_eq!(k, "TP-PB");
    assert_eq!(v, "{^}f({^}");
}

#[test]
fn block_bodies_render_per_profile() {
    let e = entry("TKPW", "if (x) {%b%0%b}", true);
    let (_, plain) = render_plain(&e).expect("renders");
    assert_eq!(plain, "{^}if (x) \\{\\n\\n\\}{#Up End}{^}");
    let (_, smart) = render_smart(&e).expect("renders");
    assert_eq!(smart, "{^}if (x) \\{\\n\\n{#Up End}{^}");
}

#[test]
fn one_liner_collapses_body_breaks() {
    let mut e = entry("TKPWU", "if (x) {%b%0%b}", true);
    e.one_liner = true;
    let (_, plain) = render_plain(&e).expect("renders");
    assert_eq!(plain, "{^}if (x) \\{\\}{#Left}{^}");
}

#[test]
fn non_terminal_is_a_bracket_stripped_partial() {
    let e = entry("STKWR-PBGS", "function %0(%1) {%b%2}", false);
    let (_, plain) = render_plain(&e).expect("renders");
    let (_, smart) = render_smart(&e).expect("renders");
    assert_eq!(plain, "{^}function{^ ^}{^ ^}{^}");
    assert_eq!(plain, smart);
}

#[test]
fn unresolved_chunks_are_render_errors() {
    assert_eq!(
        render_plain(&entry("T", "x%t", true)).err().expect("rejected").message(),
        "unresolved chunk \"typeslot\" reached the renderer"
    );
    assert_eq!(
        render_smart(&entry("T", "%d", true)).err().expect("rejected").message(),
        "unresolved chunk \"dcount\" reached the renderer"
    );
}

#[test]
fn build_dict_flags_only_differing_duplicates() {
    let entries = vec![entry("A", "x", true), entry("A", "x", true), entry("B", "y", true), entry("B", "z", true)];
    let r = build_plain_dict(&entries).expect("builds");
    assert_eq!(r.dict.len(), 2);
    assert_eq!(r.dict.get("A"), Some("{^}x{^}"));
    assert_eq!(r.dict.get("B"), Some("{^}z{^}"));
    assert_eq!(r.collisions, vec!["B".to_string()]);
    let s = build_smart_dict(&entries).expect("builds");
    assert_eq!(s.collisions, vec!["B".to_string()]);
}

#[test]
fn literal_blocks_drive_the_editor_structurally() {
    let t = parse_template("a {\n\tb\n}", 1).expect("parses");
    assert_eq!(struct_text(&t), "a {\n\tb\n}");
    let evs = emit_struct(&t);
    assert_eq!(serialize(&evs), "a \\{\\nb");
    let st = interpret(&evs, Behaviors::smart_indent());
    assert_eq!(st.buffer, "a {\n    b\n}");
}

#[test]
fn struct_text_maps_chunks() {
    let t = vec![Chunk::Lit("x".to_string()), Chunk::Brace { open: true }, Chunk::BodyBreak, Chunk::Tab, Chunk::Brace { open: false }];
    assert_eq!(struct_text(&t), "x{\n\t}");
}

#[test]
fn non_terminals_render_alike_even_when_literal() {
    let e = entry("TKPW", "if (%0) {%b%1}", false);
    assert_eq!(render_plain(&e).expect("renders"), render_smart(&e).expect("renders"));
    let mut lit = entry("TKPW", "a {\n\tb\n}", false);
    assert!(lit.source.flags.set_named("literal"));
    let (_, plain) = render_plain(&lit).expect("renders");
    let (_, smart) = render_smart(&lit).expect("renders");
    assert_eq!(plain, "{^}a{^ ^}\\n\\tb\\n{^}");
    assert_eq!(plain, smart);
    lit.terminal = true;
    let (_, smart_terminal) = render_smart(&lit).expect("renders");
    assert_ne!(plain, smart_terminal);
}

#[test]
fn build_dict_keeps_first_seen_order_and_last_value() {
    let entries = vec![
        entry("B", "1", true),
        entry("A", "x", true),
        entry("B", "2", true),
        entry("A", "x", true),
        entry("C", "c", true),
        entry("B", "3", true),
    ];
    let r = build_plain_dict(&entries).expect("builds");
    let keys: Vec<&str> = r.dict.iter().into_iter().map(|(k, _)| k).collect();
    assert_eq!(keys, vec!["B", "A", "C"]);
    assert_eq!(r.dict.get("B"), Some("{^}3{^}"));
    assert_eq!(r.dict.get("A"), Some("{^}x{^}"));
    assert_eq!(r.collisions, vec!["B".to_string(), "B".to_string()]);
}

#[test]
fn build_dict_fails_with_the_first_failing_entry() {
    let entries = vec![entry("A", "x", true), entry("B", "%t", true), entry("C", "%d", true)];
    assert_eq!(
        build_plain_dict(&entries).err().expect("rejected").message(),
        "unresolved chunk \"typeslot\" reached the renderer"
    );
    let entries = vec![entry("A", "x", true), entry("C", "%d", true), entry("B", "%t", true)];
    assert_eq!(
        build_plain_dict(&entries).err().expect("rejected").message(),
        "unresolved chunk \"dcount\" reached the renderer"
    );
}
