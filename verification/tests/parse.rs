use steno::parse::expr::parse_expr;
use steno::{parse_source, parse_template, Chunk};

#[test]
fn parse_source_reads_a_block_and_its_directives() {
    let src = "// a comment\n````STK\nhello %0\n````\n@count AOEU\n@multiline\n";
    let entries = parse_source(src).expect("parses");
    assert_eq!(entries.len(), 1);
    let e = &entries[0];
    assert_eq!(e.stroke, vec!["STK".to_string()]);
    assert_eq!(e.stroke_raw, "STK");
    assert_eq!(e.raw, "hello %0");
    assert_eq!(e.count, Some("AOEU".to_string()));
    assert_eq!(e.arity, None);
    assert!(e.flags.multiline());
    assert!(!e.flags.is_type());
    assert_eq!(e.line, 2);
    assert_eq!(e.template.len(), 2);
    assert!(matches!(&e.template[0], Chunk::Lit(s) if s == "hello "));
    assert!(matches!(e.template[1], Chunk::Landing(0)));
}

#[test]
fn parse_source_splits_and_trims_strokes() {
    let src = "````STKWR-PBGS / -FLT\nf()\n````\n";
    let entries = parse_source(src).expect("parses");
    assert_eq!(entries[0].stroke, vec!["STKWR-PBGS".to_string(), "-FLT".to_string()]);
    assert_eq!(entries[0].stroke_raw, "STKWR-PBGS / -FLT");
}

#[test]
fn parse_source_joins_multiline_bodies() {
    let src = "````S\na\nb\n````\n\n````T\nc\n````\n@type\n@arity 2\n";
    let entries = parse_source(src).expect("parses");
    assert_eq!(entries.len(), 2);
    assert_eq!(entries[0].raw, "a\nb");
    assert_eq!(entries[0].template.len(), 1);
    assert!(matches!(&entries[0].template[0], Chunk::Lit(s) if s == "a\nb"));
    assert_eq!(entries[1].line, 6);
    assert!(entries[1].flags.is_type());
    assert_eq!(entries[1].arity, Some(2));
}

#[test]
fn parse_source_errors_carry_lines() {
    let e = parse_source("````\n").unwrap_err();
    assert_eq!(e.line(), 1);
    let e = parse_source("````STK\nabc\n").unwrap_err();
    assert_eq!(e.line(), 1);
    let e = parse_source("\nstray text\n").unwrap_err();
    assert_eq!(e.line(), 2);
    let e = parse_source("@type\n").unwrap_err();
    assert_eq!(e.line(), 1);
    let e = parse_source("````S\nx\n````\n@bogus\n").unwrap_err();
    assert_eq!(e.line(), 4);
    let e = parse_source("````S\nx\n````\n@arity x\n").unwrap_err();
    assert_eq!(e.line(), 4);
    let e = parse_source("````S\nx\n````\n@count\n").unwrap_err();
    assert_eq!(e.line(), 4);
    let e = parse_source("````S\n%q\n````\n").unwrap_err();
    assert_eq!(e.line(), 2);
}

#[test]
fn parse_source_error_messages() {
    let msg = |src: &str| parse_source(src).unwrap_err().message().to_string();
    assert_eq!(msg("````\n"), "closing fence without an open block");
    assert_eq!(msg("````STK\nabc\n"), "unterminated block for \"STK\"");
    assert_eq!(msg("\nstray text\n"), "unexpected text: stray text");
    assert_eq!(msg("@type\n"), "directive before any entry");
    assert_eq!(msg("````S\nx\n````\n@bogus\n"), "unknown directive @bogus");
    assert_eq!(msg("````S\nx\n````\n@arity x\n"), "@arity needs a non-negative integer, got \"x\"");
    assert_eq!(msg("````S\nx\n````\n@count\n"), "@count needs a key list");
    assert_eq!(msg("````S\nx\n````\n@ x\n"), "malformed directive: @ x");
    assert_eq!(msg("````S\n%q\n````\n"), "unknown operator %q (col 1)");
}

#[test]
fn parse_error_describes_line_and_message() {
    let e = parse_source("stray\n").unwrap_err();
    assert_eq!(e.describe(), format!("line 1: {}", e.message()));
}

#[test]
fn parse_template_recognises_every_operator() {
    let cs = parse_template("a{b}%1\\n%t%d%b%p\\t", 1).expect("parses");
    assert_eq!(cs.len(), 11);
    assert!(matches!(&cs[0], Chunk::Lit(s) if s == "a"));
    assert!(matches!(cs[1], Chunk::Brace { open: true }));
    assert!(matches!(&cs[2], Chunk::Lit(s) if s == "b"));
    assert!(matches!(cs[3], Chunk::Brace { open: false }));
    assert!(matches!(cs[4], Chunk::Landing(1)));
    assert!(matches!(cs[5], Chunk::Newline));
    assert!(matches!(cs[6], Chunk::TypeSlot));
    assert!(matches!(cs[7], Chunk::Dcount));
    assert!(matches!(cs[8], Chunk::BodyBreak));
    assert!(matches!(cs[9], Chunk::Pattern));
    assert!(matches!(cs[10], Chunk::Tab));
}

#[test]
fn parse_template_escapes_become_literal_text() {
    let cs = parse_template("\\{x\\}\\%\\|\\\\\\`", 1).expect("parses");
    assert_eq!(cs.len(), 1);
    assert!(matches!(&cs[0], Chunk::Lit(s) if s == "{x}%|\\`"));
}

#[test]
fn parse_template_repeat_and_computed() {
    let cs = parse_template("%[, |x%0%]%(2d+1)", 1).expect("parses");
    assert_eq!(cs.len(), 2);
    match &cs[0] {
        Chunk::Repeat { sep, body } => {
            assert_eq!(sep.len(), 1);
            assert!(matches!(&sep[0], Chunk::Lit(s) if s == ", "));
            assert_eq!(body.len(), 2);
            assert!(matches!(&body[0], Chunk::Lit(s) if s == "x"));
            assert!(matches!(body[1], Chunk::Landing(0)));
        },
        other => panic!("expected a repeat, got {:?}", other),
    }
    match &cs[1] {
        Chunk::Computed(e) => {
            assert_eq!(e.a, 2);
            assert_eq!(e.b, 1);
        },
        other => panic!("expected a computed landing, got {:?}", other),
    }
    let cs = parse_template("%[y%]", 1).expect("parses");
    match &cs[0] {
        Chunk::Repeat { sep, body } => {
            assert!(sep.is_empty());
            assert_eq!(body.len(), 1);
        },
        other => panic!("expected a repeat, got {:?}", other),
    }
}

#[test]
fn parse_template_errors() {
    for bad in ["%", "\\", "\\q", "%q", "%[x", "%(d", "%(x)"] {
        let e = parse_template(bad, 7).unwrap_err();
        assert_eq!(e.line(), 7, "template {:?}", bad);
    }
}

#[test]
fn parse_template_error_messages() {
    let msg = |src: &str| parse_template(src, 1).unwrap_err().message().to_string();
    assert_eq!(msg("ab%"), "trailing '%' (col 3)");
    assert_eq!(msg("\\"), "trailing backslash (col 1)");
    assert_eq!(msg("x\\q"), "unknown escape \\q (col 2)");
    assert_eq!(msg("%[x"), "unterminated %[ ... %] (col 4)");
    assert_eq!(msg("%(d"), "unterminated %( ... ) (col 4)");
    assert_eq!(msg("%(x)"), "bad computed expression \"x\" (col 5)");
    assert_eq!(msg("%<1"), "unterminated %< ... > (col 4)");
    assert_eq!(msg("%<1x>"), "bad end landing \"%<1x\" (col 4)");
    assert_eq!(msg("%<>"), "empty end landing \"%<>\" (col 3)");
    assert_eq!(msg("%<99999999999>"), "bad end landing \"%<99999999999>\" (col 15)");
}

#[test]
fn chunk_kind_names() {
    let cs = parse_template("x{%0%t%b", 1).expect("parses");
    let names: Vec<&str> = cs.iter().map(|c| c.kind_name()).collect();
    assert_eq!(names, vec!["lit", "brace", "landing", "typeslot", "bodybreak"]);
}

#[test]
fn parse_expr_linear_forms() {
    let e = parse_expr("2d+1").expect("parses");
    assert_eq!((e.a, e.b), (2, 1));
    let e = parse_expr("d").expect("parses");
    assert_eq!((e.a, e.b), (1, 0));
    let e = parse_expr(" - d - 3 ").expect("parses");
    assert_eq!((e.a, e.b), (-1, -3));
    let e = parse_expr("7").expect("parses");
    assert_eq!((e.a, e.b), (0, 7));
    assert!(parse_expr("x").is_none());
    assert!(parse_expr("d+").is_none());
    assert!(parse_expr("").is_none());
}

#[test]
fn entries_sit_on_their_fence_lines_in_order() {
    let src = "# intro\n\n````S\na\n````\n@multiline\n\n````T/P  \nb\n````\n";
    let entries = parse_source(src).expect("parses");
    let lines: Vec<&str> = src.lines().collect();
    let got: Vec<(usize, &str)> = entries.iter().map(|e| (e.line, e.stroke_raw.as_str())).collect();
    assert_eq!(got, vec![(3, "S"), (8, "T/P")]);
    for e in &entries {
        assert!(lines[e.line - 1].contains("````"));
    }
    let err = parse_source("````S\n%(\n````\n").err().expect("rejected");
    assert!(err.line() >= 1 && err.line() <= 3);
}
