use steno::snippet::wrap_inline_body;
use steno::{build_snippets, parse_template, render_snippet, Entry, EntryFlags, TypedEntry, SENTINEL_CLOSE, SENTINEL_OPEN};

fn entry(stroke: &str, template: &str, terminal: bool) -> TypedEntry {
    let source = Entry {
        stroke: vec![stroke.to_string()],
        stroke_raw: stroke.to_string(),
        template: parse_template(template, 1).expect("template parses"),
        raw: template.to_string(),
        count: None,
        arity: None,
        flags: EntryFlags::none(),
        line: 1,
    };
    TypedEntry {
        stroke: stroke.to_string(),
        template: parse_template(template, 1).expect("template parses"),
        terminal,
        one_liner: false,
        count: None,
        type_label: None,
        source,
    }
}

#[test]
fn landings_become_tabstops_highest_last() {
    let s = render_snippet(&entry("TP-PB", "f(%1, %2)%0", true)).expect("renders");
    assert_eq!(s.key_id, "TP-PB");
    assert_eq!(s.body, "f(${2}, ${0})${1}");
    assert!(s.terminal);
}

#[test]
fn tabstops_are_distinct_per_landing() {
    let s = render_snippet(&entry("T", "%3%1%2%1", true)).expect("renders");
    assert_eq!(s.body, "${0}${1}${2}${1}");
}

#[test]
fn braces_and_special_characters_are_escaped() {
    let s = render_snippet(&entry("T", "x {%0}", true)).expect("renders");
    assert_eq!(s.body, "x {${0}\\}");
    let s = render_snippet(&entry("T", "$a\\\\b", true)).expect("renders");
    assert_eq!(s.body, "\\$a\\\\b");
}

#[test]
fn body_breaks_follow_the_one_liner_flag() {
    let mut e = entry("T", "a%bb", true);
    assert_eq!(render_snippet(&e).expect("renders").body, "a\nb");
    e.one_liner = true;
    assert_eq!(render_snippet(&e).expect("renders").body, "ab");
}

#[test]
fn non_terminal_snippet_is_a_stripped_partial() {
    let s = render_snippet(&entry("T", "f(x)%0", false)).expect("renders");
    assert_eq!(s.body, "fx");
    assert!(!s.terminal);
}

#[test]
fn unresolved_chunk_is_a_snippet_error() {
    let msg = "unresolved chunk \"typeslot\" reached the snippet renderer";
    assert_eq!(render_snippet(&entry("T", "x%t", true)).err().expect("rejected").message(), msg);
    assert_eq!(render_snippet(&entry("T", "x%t", false)).err().expect("rejected").message(), msg);
}

#[test]
fn build_snippets_wraps_tokens_and_flags_collisions() {
    let entries = vec![entry("A", "x%0", true), entry("B", "y", true), entry("A", "z", true)];
    let b = build_snippets(&entries).expect("builds");
    assert_eq!(b.plover_keys.get("A"), Some("@@A@@"));
    assert_eq!(b.plover_keys.get("B"), Some("@@B@@"));
    assert_eq!(b.snippets.get("A"), Some("z"));
    assert_eq!(b.snippets.get("B"), Some("y"));
    assert_eq!(b.collisions, vec!["A".to_string()]);
    assert_eq!(b.plover_keys.len(), 2);
}

#[test]
fn sentinels_and_inline_wrapping() {
    assert_eq!(SENTINEL_OPEN, "@@");
    assert_eq!(SENTINEL_CLOSE, "@@");
    assert_eq!(wrap_inline_body("b${0}"), "{^}@@b${0}@@{^}");
}
