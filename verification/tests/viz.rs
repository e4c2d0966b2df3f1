use std::collections::HashMap;
use steno::viz::assemble::build;
use steno::viz::axis::{group, Kind, Leaf};
use steno::viz::comments::{desc_for, label_for, scan, scan_desc, scan_sections, section_for};
use steno::viz::json::to_json;
use steno::viz::{group_key, position, section_parts};
use steno::{parse_template, Entry, EntryFlags, TypedEntry};

const SRC: &str = "## Functions\n````S\nx\n````\n##> arrays\n### does x\n````T\ny\n````\n## Other\n";

fn descs_of(v: &[(usize, &str)]) -> HashMap<usize, String> {
    v.iter().map(|(k, d)| (*k, d.to_string())).collect()
}

fn typed(stroke: &str, raw: &str, line: usize, template: &str, terminal: bool, label: Option<&str>) -> TypedEntry {
    let source = Entry {
        stroke: raw.split('/').map(String::from).collect(),
        stroke_raw: raw.to_string(),
        template: parse_template(template, 1).expect("parses"),
        raw: template.to_string(),
        count: None,
        arity: None,
        flags: EntryFlags::none(),
        line,
    };
    TypedEntry {
        stroke: stroke.to_string(),
        template: parse_template(template, 1).expect("parses"),
        terminal,
        one_liner: false,
        count: None,
        type_label: label.map(String::from),
        source,
    }
}

#[test]
fn markers_sections_and_descriptions() {
    let cats = scan(SRC);
    let got: Vec<(usize, &str)> = cats.iter().map(|m| (m.line, m.label.as_str())).collect();
    assert_eq!(got, vec![(1, "Functions"), (10, "Other")]);
    let secs = scan_sections(SRC);
    let got: Vec<(usize, &str)> = secs.iter().map(|m| (m.line, m.label.as_str())).collect();
    assert_eq!(got, vec![(5, "arrays")]);
    let descs = scan_desc(SRC);
    assert_eq!(descs, descs_of(&[(7, "does x")]));
    assert_eq!(desc_for(&descs, 7), Some("does x"));
    assert_eq!(desc_for(&descs, 2), None);
}

#[test]
fn markers_ignore_empty_labels_and_prose() {
    let cats = scan("##\n##  spaced  \n# prose\n###x\n##   \n");
    let got: Vec<(usize, &str)> = cats.iter().map(|m| (m.line, m.label.as_str())).collect();
    assert_eq!(got, vec![(2, "spaced")]);
}

#[test]
fn category_markers_need_column_zero_and_whitespace() {
    let cats = scan("##Foo\n  ## Bar\n## Baz \n### d\n##> s\n##");
    let got: Vec<(usize, &str)> = cats.iter().map(|m| (m.line, m.label.as_str())).collect();
    assert_eq!(got, vec![(3, "Baz")]);
}

#[test]
fn section_markers_need_column_zero_and_whitespace() {
    let secs = scan_sections("##>arrays\n  ##> strings\n##>\tmaps \n## cat\n##>   \n");
    let got: Vec<(usize, &str)> = secs.iter().map(|m| (m.line, m.label.as_str())).collect();
    assert_eq!(got, vec![(3, "maps")]);
}

#[test]
fn description_markers_need_column_zero_and_whitespace() {
    let d = scan_desc("###foo\n````A\n#### x\n````B\n  ### y\n````C\n### z \n````D\n");
    assert_eq!(d, descs_of(&[(8, "z")]));
}

#[test]
fn descriptions_survive_blank_lines_only() {
    let d = scan_desc("### a\n\n````S\n````\n### b\nprose\n````T\n");
    assert_eq!(d, descs_of(&[(3, "a")]));
}

#[test]
fn labels_and_sections_for_lines() {
    let cats = scan(SRC);
    let secs = scan_sections(SRC);
    assert_eq!(label_for(&cats, 1), "Uncategorized");
    assert_eq!(label_for(&cats, 2), "Functions");
    assert_eq!(label_for(&cats, 11), "Other");
    assert_eq!(section_for(&secs, &cats, 7), Some("arrays"));
    assert_eq!(section_for(&secs, &cats, 4), None);
    assert_eq!(section_for(&secs, &cats, 11), None);
}

#[test]
fn positions_and_section_parts() {
    assert_eq!(position("A/B/C", "Cat", None), "A/B");
    assert_eq!(position("A", "Cat", Some("s")), "cat:Cat");
    assert_eq!(position("A/B", "Cat", Some("sec")), "sec:A>sec");
    assert_eq!(section_parts("sec:A/B>label"), Some(("A/B".to_string(), "label".to_string())));
    assert_eq!(section_parts("cat:x"), None);
    assert_eq!(section_parts("sec:nope"), None);
}

#[test]
fn section_positions_round_trip() {
    for (key, label) in [("A/B", "x y"), ("TKPW/STR/TPH", "arrays"), ("S/T", "")] {
        let pos = position(key, "Cat", Some(label));
        let parent = &key[..key.rfind('/').expect("has a slash")];
        assert_eq!(section_parts(&pos), Some((parent.to_string(), label.to_string())));
    }
}

#[test]
fn group_key_strips_the_one_liner_u() {
    let mut e = typed("TKPWU/STR", "TKPW", 1, "x", true, None);
    e.one_liner = true;
    assert_eq!(group_key(&e), Ok("TKPW/STR".to_string()));
    e.stroke = "SUT".to_string();
    assert_eq!(group_key(&e), Ok("S-T".to_string()));
    let plain = typed("TKPWU/STR", "TKPW", 1, "x", true, None);
    assert_eq!(group_key(&plain), Ok("TKPWU/STR".to_string()));
    e.stroke = "X/Y".to_string();
    assert_eq!(group_key(&e), Err("bad left key \"X\" in \"X\"".to_string()));
}

#[test]
fn kind_names() {
    assert_eq!(Kind::Count.as_str(), "count");
    assert_eq!(Kind::Type.as_str(), "type");
}

#[test]
fn tree_links_children_and_category_roots() {
    let typed = vec![typed("A", "A", 2, "a", true, None), typed("A/B", "A/B", 5, "ab", true, None)];
    let cats = scan("## Cat\n");
    let tree = build(&typed, &cats, &Vec::new(), &HashMap::new()).expect("builds");
    assert_eq!(tree.node_count(), 2);
    assert_eq!(tree.category_count(), 1);
    assert_eq!(
        to_json(&tree),
        "{\n\"categories\": [\n{\"label\": \"Cat\", \"roots\": [\"A\"]}\n],\n\"nodes\": {\n\"A\": {\"terminal\": true, \"multiLine\": \"a\", \"oneLiner\": null, \"children\": [\"A/B\"], \"axis\": null, \"description\": null, \"oneLinerRoot\": null},\n\"A/B\": {\"terminal\": true, \"multiLine\": \"ab\", \"oneLiner\": null, \"children\": [], \"axis\": null, \"description\": null, \"oneLinerRoot\": null}\n}\n}\n"
    );
}

#[test]
fn alternatives_of_one_line_become_an_axis() {
    let typed = vec![
        typed("T", "T", 3, "x:", false, None),
        typed("T/STR", "T", 3, "x: string", true, Some("string")),
        typed("T/TPH", "T", 3, "x: number", true, Some("number")),
    ];
    let cats = scan("## Cat\n");
    let tree = build(&typed, &cats, &Vec::new(), &HashMap::new()).expect("builds");
    assert_eq!(tree.node_order, vec!["T", "T/STR", "T/TPH", "#3.1"]);
    let json = to_json(&tree);
    assert!(json.contains("\"T\": {\"terminal\": false, \"multiLine\": \"x:\", \"oneLiner\": null, \"children\": [\"#3.1\"],"));
    assert!(json.contains("\"#3.1\": {\"terminal\": true, \"multiLine\": \"x: string\", \"oneLiner\": null, \"children\": [], \"axis\": {\"kind\": \"type\", \"options\": [{\"label\": \"string\", \"key\": \"T/STR\"}, {\"label\": \"number\", \"key\": \"T/TPH\"}]}, \"description\": null, \"oneLinerRoot\": null}"));
}

#[test]
fn one_liner_variants_share_a_node() {
    let mut u = typed("TKPWU", "TKPW", 2, "if {}", true, None);
    u.one_liner = true;
    let typed = vec![typed("TKPW", "TKPW", 2, "if {%b}", true, None), u];
    let tree = build(&typed, &Vec::new(), &Vec::new(), &HashMap::new()).expect("builds");
    assert_eq!(tree.node_order, vec!["TKPW"]);
    let json = to_json(&tree);
    assert!(json.contains("\"oneLiner\": \"if {\\\\}\""));
    assert!(json.contains("\"oneLinerRoot\": \"TKPWU\""));
    assert!(json.contains("{\"label\": \"Uncategorized\", \"roots\": [\"TKPW\"]}"));
}

#[test]
fn sections_splice_a_grouping_node() {
    let typed = vec![typed("S", "S", 2, "s", false, None), typed("S/T", "S/T", 4, "st", true, None)];
    let cats = scan("## Cat\n");
    let secs = scan_sections("\n\n##> grp\n");
    let tree = build(&typed, &cats, &secs, &HashMap::new()).expect("builds");
    assert_eq!(tree.node_order, vec!["S", "S/T", "sec:S>grp"]);
    let json = to_json(&tree);
    assert!(json.contains("\"S\": {\"terminal\": false, \"multiLine\": \"s\", \"oneLiner\": null, \"children\": [\"sec:S>grp\"],"));
    assert!(json.contains("\"sec:S>grp\": {\"terminal\": false, \"multiLine\": null, \"oneLiner\": null, \"children\": [\"S/T\"], \"axis\": null, \"description\": \"grp\", \"oneLinerRoot\": null}"));
}

#[test]
fn build_fails_on_unrenderable_entries() {
    let typed = vec![typed("A", "A", 2, "a%t", true, None)];
    assert!(build(&typed, &Vec::new(), &Vec::new(), &HashMap::new()).is_err());
}

fn leaf<'a>(key: &str, position: &str, entry: &'a TypedEntry) -> Leaf<'a> {
    Leaf { key: key.to_string(), position: position.to_string(), entry }
}

#[test]
fn leaves_of_one_position_and_line_share_one_bucket() {
    let a = typed("T/STR", "T", 3, "x: string", true, Some("string"));
    let b = typed("T/TPH", "T", 3, "x: number", true, Some("number"));
    let c = typed("T/KP", "T/KP", 7, "x", true, None);
    let d = typed("S/KP", "T/KP", 7, "y", true, None);
    let leaves = vec![leaf("T/STR", "T", &a), leaf("T/KP", "T", &c), leaf("T/TPH", "T", &b), leaf("S/KP", "S", &d)];
    let g = group(&leaves);
    assert_eq!(g.children_of.len(), 2);
    assert_eq!(g.children_of[0].0, "T");
    assert_eq!(g.children_of[0].1, vec!["#3.0", "T/KP"]);
    assert_eq!(g.children_of[1].0, "S");
    assert_eq!(g.children_of[1].1, vec!["S/KP"]);
    assert_eq!(g.axes.len(), 1);
    assert_eq!(g.axes[0].0, "#3.0");
    let keys: Vec<&str> = g.axes[0].1.choices.iter().map(|c| c.key.as_str()).collect();
    assert_eq!(keys, vec!["T/STR", "T/TPH"]);
}

#[test]
fn descriptions_attach_to_the_entry_on_their_fence_line() {
    let typed = vec![typed("A", "A", 2, "a", true, None), typed("A/B", "A/B", 5, "ab", true, None)];
    let cats = scan("## Cat\n");
    let tree = build(&typed, &cats, &Vec::new(), &descs_of(&[(5, "adds b"), (9, "unused")])).expect("builds");
    let json = to_json(&tree);
    assert!(json.contains("\"A/B\": {\"terminal\": true, \"multiLine\": \"ab\", \"oneLiner\": null, \"children\": [], \"axis\": null, \"description\": \"adds b\", \"oneLinerRoot\": null}"));
    assert!(json.contains("\"A\": {\"terminal\": true, \"multiLine\": \"a\", \"oneLiner\": null, \"children\": [\"A/B\"], \"axis\": null, \"description\": null, \"oneLinerRoot\": null}"));
}
