use steno::expand::infinite::emit::sample::sample_sequences;
use steno::expand::infinite::emit::{c_escape, stroke_mask};
use steno::{
    build_tables, check_fuse_ambiguity, emit_data_header, parse_source, parse_template, render_filled, render_walk, template_fragments,
    template_ops, walk, Profile, TemplateOp,
};

const CORPUS: &str = "````AR\nArray<%t>\n````\n@type\n@arity 1\n````TPH\nnumber\n````\n@type\n````HRET\nlet %0: %t\n````\n````TKPW/-R\n(): %T\n````\n@fuse\n";

fn strokes(v: &[&str]) -> Vec<String> {
    v.iter().map(|s| s.to_string()).collect()
}

#[test]
fn tables_record_types_and_constructs() {
    let es = parse_source(CORPUS).expect("parses");
    let (types, constructs) = build_tables(&es).expect("builds");
    let ts: Vec<(&str, u32, &str)> = types.iter().map(|t| (t.stroke.as_str(), t.arity, t.text.as_str())).collect();
    assert_eq!(ts, vec![("AR", 1, "Array<%t>"), ("TPH", 0, "number")]);
    assert_eq!(constructs.len(), 2);
    assert_eq!(constructs[0].base, strokes(&["HRET"]));
    assert_eq!(constructs[0].shape, None);
    assert_eq!(constructs[0].slots, vec![3]);
    assert_eq!(constructs[0].fill_order, vec![0]);
    assert_eq!(constructs[1].base, strokes(&["TKPW"]));
    assert_eq!(constructs[1].shape, Some("-R".to_string()));
    assert_eq!(constructs[1].source_stroke, "TKPW/-R");
}

#[test]
fn walk_fills_nested_generics() {
    let es = parse_source(CORPUS).expect("parses");
    let (types, constructs) = build_tables(&es).expect("builds");
    let r = walk(&strokes(&["HRET", "AR", "TPH"]), &types, &constructs).expect("walks");
    assert!(r.terminal);
    assert_eq!(render_walk(&r, Profile::Nvim).expect("renders"), "{^}@@let ${0}: Array<number>@@{^}");
    let r = walk(&strokes(&["HRET", "AR", "AR", "TPH"]), &types, &constructs).expect("walks");
    assert!(r.terminal);
    assert_eq!(render_walk(&r, Profile::Nvim).expect("renders"), "{^}@@let ${0}: Array<Array<number>>@@{^}");
}

#[test]
fn walk_reports_partials_as_non_terminal() {
    let es = parse_source(CORPUS).expect("parses");
    let (types, constructs) = build_tables(&es).expect("builds");
    let r = walk(&strokes(&["HRET", "AR"]), &types, &constructs).expect("walks");
    assert!(!r.terminal);
    assert_eq!(render_walk(&r, Profile::Plain).expect("renders"), "{^}let : Array{^}");
    assert_eq!(render_walk(&r, Profile::Nvim).expect("renders"), "{^}let : Array{^}");
    let r = walk(&strokes(&["HRET"]), &types, &constructs).expect("walks");
    assert!(!r.terminal);
}

#[test]
fn walk_rejects_unknown_and_extra_strokes() {
    let es = parse_source(CORPUS).expect("parses");
    let (types, constructs) = build_tables(&es).expect("builds");
    assert!(walk(&strokes(&["HRET", "X"]), &types, &constructs).is_none());
    assert!(walk(&strokes(&["HRET", "TPH", "TPH"]), &types, &constructs).is_none());
    assert!(walk(&strokes(&["KWR"]), &types, &constructs).is_none());
}

#[test]
fn walk_unfuses_the_shape() {
    let es = parse_source(CORPUS).expect("parses");
    let (types, constructs) = build_tables(&es).expect("builds");
    let r = walk(&strokes(&["TKPW", "TPH-R"]), &types, &constructs).expect("walks");
    assert!(r.terminal);
    assert_eq!(render_walk(&r, Profile::Nvim).expect("renders"), "{^}@@(): number@@{^}");
    assert_eq!(render_walk(&r, Profile::Plain).expect("renders"), "{^}(): number{^}");
}

#[test]
fn fragments_ops_and_filled_text() {
    let es = parse_source(CORPUS).expect("parses");
    let (_types, constructs) = build_tables(&es).expect("builds");
    let t = &constructs[0].template;
    assert_eq!(template_fragments(t), strokes(&["let : ", ""]));
    assert_eq!(render_filled(t, &strokes(&["string"])), "let : string");
    let t2 = parse_template("a%tb%tc", 1).expect("parses");
    assert_eq!(render_filled(&t2, &strokes(&["X"])), "aXbc");
    assert_eq!(
        template_ops(t),
        vec![TemplateOp::Text("let ".to_string()), TemplateOp::Landing(0), TemplateOp::Text(": ".to_string()), TemplateOp::Slot]
    );
}

#[test]
fn stroke_masks_follow_the_key_layout() {
    assert_eq!(stroke_mask("#").expect("mask"), 1);
    assert_eq!(stroke_mask("S").expect("mask"), 2);
    assert_eq!(stroke_mask("STKPWHR").expect("mask"), 254);
    assert_eq!(stroke_mask("A").expect("mask"), 256);
    assert_eq!(stroke_mask("-Z").expect("mask"), 1 << 22);
    assert_eq!(stroke_mask("TPH").expect("mask"), 0x54);
    assert!(stroke_mask("X").is_err());
}

#[test]
fn c_escape_cases() {
    assert_eq!(c_escape("a\\b\"c\nd\te"), "a\\\\b\\\"c\\nd\\te");
}

#[test]
fn data_header_lists_types_and_constructs() {
    let es = parse_source(CORPUS).expect("parses");
    let (types, constructs) = build_tables(&es).expect("builds");
    let h = emit_data_header(&types, &constructs).expect("emits");
    assert!(h.contains("namespace steno_generated {"));
    assert!(h.contains("  {0x004100u, 1u, \"Array<%t>\"},\n"));
    assert!(h.contains("  {0x000054u, 0u, \"number\"},\n"));
    assert!(h.contains("static const uint32_t TYPE_COUNT = 2u;"));
    assert!(h.contains("static const uint32_t MAX_OUTLINE_LENGTH = 24u;"));
    assert!(h.ends_with("} // namespace steno_generated\n"));
}

#[test]
fn fuse_ambiguity_is_detected() {
    let ok = "````-F\nf\n````\n@type\n````-R\nr\n````\n@type\n````TKPW/-R\n%T\n````\n@fuse\n";
    let es = parse_source(ok).expect("parses");
    let (types, constructs) = build_tables(&es).expect("builds");
    assert!(check_fuse_ambiguity(&types, &constructs).is_ok());
    let bad = "````-F\nf\n````\n@type\n````-R\nr\n````\n@type\n````TKPW/-R\n%T\n````\n@fuse\n````TKPW/-F\n%T\n````\n@fuse\n";
    let es = parse_source(bad).expect("parses");
    let (types, constructs) = build_tables(&es).expect("builds");
    let e = check_fuse_ambiguity(&types, &constructs).unwrap_err();
    assert_eq!(
        e.message(),
        "fuse ambiguity: shape \"-R\"+type \"-F\" and shape \"-F\"+type \"-R\" both fuse to \"-FR\""
    );
}

#[test]
fn samples_cover_fills_depths_partials_and_negatives() {
    let es = parse_source(CORPUS).expect("parses");
    let (types, constructs) = build_tables(&es).expect("builds");
    let got = sample_sequences(&types, &constructs);
    let want: Vec<Vec<String>> = vec![
        strokes(&["HRET"]),
        strokes(&["HRET", "TPH"]),
        strokes(&["TKPW"]),
        strokes(&["TKPW", "TPH-R"]),
        strokes(&["HRET", "AR", "TPH"]),
        strokes(&["HRET", "AR", "AR", "TPH"]),
        strokes(&["HRET", "AR", "AR", "AR", "TPH"]),
        strokes(&["HRET", "AR", "AR"]),
        strokes(&["STKPWHR"]),
        strokes(&["HRET", "TPH", "TPH"]),
    ];
    assert_eq!(got, want);
    assert!(sample_sequences(&Vec::new(), &constructs).is_empty());
}
