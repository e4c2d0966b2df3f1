//! Serializes a tree to the JSON shape the viewer expects:
//! `{"categories": [{"label", "roots"}, ...], "nodes": {stroke: {"terminal",
//! "multiLine", "oneLiner", "children", "axis", "description",
//! "oneLinerRoot"}, ...}}`, hand-rolled with the crate's own string
//! escaping.
use vstd::prelude::*;
use super::axis::{kind_str, Axis, AxisV, Choice, ChoiceV, axis_view, choice_view};
use super::grouping::{find_node, lemma_node_find, node_get, node_keys};
use super::{categories_view, category_view, node_view, nodes_view, opt_axis_view, tree_view, Category, CategoryV, Node, NodeV, Tree, TreeV};
use crate::json_out::{json_quoted, json_string};
use crate::parse::{opt_view, strs_view};
use crate::text::push_str;

verus! {

broadcast use vstd::seq_lib::group_seq_properties;

/// The first `n` items, quoted and separated by `, `.
pub open spec fn quoted_list(items: Seq<Seq<char>>, n: nat) -> Seq<char>
    decreases n,
{
    if n == 0 || n > items.len() {
        Seq::empty()
    } else if n == 1 {
        json_quoted(items[0])
    } else {
        quoted_list(items, (n - 1) as nat) + ", "@ + json_quoted(items[n - 1])
    }
}

/// A JSON array of strings.
pub open spec fn str_array(items: Seq<Seq<char>>) -> Seq<char> {
    seq!['['] + quoted_list(items, items.len()) + seq![']']
}

/// `null` or a JSON string.
pub open spec fn opt_str_json(o: Option<Seq<char>>) -> Seq<char> {
    match o {
        Some(s) => json_quoted(s),
        None => "null"@,
    }
}

/// One `{"label", "key"}` axis option.
pub open spec fn choice_json(c: ChoiceV) -> Seq<char> {
    "{\"label\": "@ + json_quoted(c.label) + ", \"key\": "@ + json_quoted(c.key) + seq!['}']
}

/// The first `n` options, separated by `, `.
pub open spec fn choices_json(cs: Seq<ChoiceV>, n: nat) -> Seq<char>
    decreases n,
{
    if n == 0 || n > cs.len() {
        Seq::empty()
    } else if n == 1 {
        choice_json(cs[0])
    } else {
        choices_json(cs, (n - 1) as nat) + ", "@ + choice_json(cs[n - 1])
    }
}

/// `null` or an axis object: `{"kind", "options": [{"label", "key"}]}`.
pub open spec fn axis_json(o: Option<AxisV>) -> Seq<char> {
    match o {
        None => "null"@,
        Some(a) => "{\"kind\": "@ + json_quoted(kind_str(a.kind)) + ", \"options\": ["@ + choices_json(a.choices, a.choices.len())
            + "]}"@,
    }
}

/// One `"stroke": {...}` node entry.
pub open spec fn node_json(key: Seq<char>, n: NodeV) -> Seq<char> {
    node_json_head(key, n) + node_json_body(n) + node_json_tail(n)
}

/// The key, terminal flag and preview texts of a node entry.
pub open spec fn node_json_head(key: Seq<char>, n: NodeV) -> Seq<char> {
    json_quoted(key) + ": {\"terminal\": "@ + (if n.terminal {
        "true"@
    } else {
        "false"@
    }) + ", \"multiLine\": "@ + opt_str_json(n.multi_line) + ", \"oneLiner\": "@ + opt_str_json(n.one_liner)
}

/// The children and axis of a node entry.
pub open spec fn node_json_body(n: NodeV) -> Seq<char> {
    ", \"children\": "@ + str_array(n.children) + ", \"axis\": "@ + axis_json(n.axis)
}

/// The description and one-liner root of a node entry, and its close.
pub open spec fn node_json_tail(n: NodeV) -> Seq<char> {
    ", \"description\": "@ + opt_str_json(n.description) + ", \"oneLinerRoot\": "@ + opt_str_json(n.one_liner_root)
        + seq!['}']
}

/// A comma unless item `i` is the last of `len`, then a newline.
pub open spec fn line_end(i: int, len: int) -> Seq<char> {
    if i + 1 < len {
        seq![',', '\n']
    } else {
        seq!['\n']
    }
}

/// The first `n` category objects, one per line.
pub open spec fn categories_json(cats: Seq<CategoryV>, n: nat) -> Seq<char>
    decreases n,
{
    if n == 0 || n > cats.len() {
        Seq::empty()
    } else {
        let c = cats[n - 1];
        categories_json(cats, (n - 1) as nat) + "{\"label\": "@ + json_quoted(c.label) + ", \"roots\": "@ + str_array(c.roots)
            + seq!['}'] + line_end(n - 1, cats.len() as int)
    }
}

/// The node entries of the first `n` keys of `order`, one per line (a key
/// with no node gives an empty line).
pub open spec fn nodes_json(order: Seq<Seq<char>>, nodes: Seq<(Seq<char>, NodeV)>, n: nat) -> Seq<char>
    decreases n,
{
    if n == 0 || n > order.len() {
        Seq::empty()
    } else {
        let k = order[n - 1];
        nodes_json(order, nodes, (n - 1) as nat) + match node_get(nodes, k) {
            Some(nd) => node_json(k, nd),
            None => Seq::empty(),
        } + line_end(n - 1, order.len() as int)
    }
}

/// The whole tree as JSON.
pub open spec fn tree_json(t: TreeV) -> Seq<char> {
    "{\n\"categories\": [\n"@ + categories_json(t.categories, t.categories.len()) + "],\n\"nodes\": {\n"@ + nodes_json(
        t.node_order,
        t.nodes,
        t.node_order.len(),
    ) + "}\n}\n"@
}

fn push_quoted(out: &mut String, s: &str)
    ensures
        final(out)@ == old(out)@ + json_quoted(s@),
{
    let q = json_string(s);
    push_str(out, q.as_str());
}

/// Write a JSON array of plain strings.
fn write_str_array(out: &mut String, items: &Vec<String>)
    ensures
        final(out)@ == old(out)@ + str_array(strs_view(items@)),
{
    let ghost o0 = out@;
    let ghost iv = strs_view(items@);
    out.push('[');
    let mut i: usize = 0;
    while i < items.len()
        invariant
            i <= items@.len(),
            iv == strs_view(items@),
            out@ == o0 + seq!['['] + quoted_list(iv, i as nat),
        decreases items.len() - i,
    {
        if i > 0 {
            push_str(out, ", ");
        }
        push_quoted(out, items[i].as_str());
        assert(out@ == o0 + seq!['['] + quoted_list(iv, (i + 1) as nat));
        i = i + 1;
    }
    out.push(']');
    assert(out@ == o0 + str_array(iv));
}

/// Write `null` or a JSON string.
fn write_opt_string(out: &mut String, value: &Option<String>)
    ensures
        final(out)@ == old(out)@ + opt_str_json(opt_view(*value)),
{
    match value {
        Some(s) => push_quoted(out, s.as_str()),
        None => push_str(out, "null"),
    }
}

/// Write one `{"label", "key"}` axis option.
fn write_choice(out: &mut String, choice: &Choice)
    ensures
        final(out)@ == old(out)@ + choice_json(choice_view(*choice)),
{
    let ghost o0 = out@;
    push_str(out, "{\"label\": ");
    push_quoted(out, choice.label.as_str());
    push_str(out, ", \"key\": ");
    push_quoted(out, choice.key.as_str());
    out.push('}');
    assert(out@ =~= o0 + choice_json(choice_view(*choice)));
}

/// Write `null` or an axis object.
fn write_opt_axis(out: &mut String, axis: &Option<Axis>)
    ensures
        final(out)@ == old(out)@ + axis_json(opt_axis_view(*axis)),
{
    let a = match axis {
        Some(a) => a,
        None => {
            push_str(out, "null");
            return;
        },
    };
    let ghost o0 = out@;
    let ghost cv = axis_view(*a).choices;
    push_str(out, "{\"kind\": ");
    push_quoted(out, a.kind.as_str());
    push_str(out, ", \"options\": [");
    let ghost o1 = out@;
    let mut i: usize = 0;
    while i < a.choices.len()
        invariant
            i <= a.choices@.len(),
            cv == axis_view(*a).choices,
            out@ == o1 + choices_json(cv, i as nat),
        decreases a.choices.len() - i,
    {
        if i > 0 {
            push_str(out, ", ");
        }
        assert(cv[i as int] == choice_view(a.choices@[i as int]));
        write_choice(out, &a.choices[i]);
        assert(out@ == o1 + choices_json(cv, (i + 1) as nat));
        i = i + 1;
    }
    push_str(out, "]}");
    assert(out@ =~= o0 + axis_json(opt_axis_view(*axis)));
}

fn write_node_head(out: &mut String, key: &str, node: &Node)
    ensures
        final(out)@ == old(out)@ + node_json_head(key@, node_view(*node)),
{
    let ghost o0 = out@;
    push_quoted(out, key);
    push_str(out, ": {\"terminal\": ");
    if node.terminal {
        push_str(out, "true");
    } else {
        push_str(out, "false");
    }
    push_str(out, ", \"multiLine\": ");
    write_opt_string(out, &node.multi_line);
    push_str(out, ", \"oneLiner\": ");
    write_opt_string(out, &node.one_liner);
    assert(out@ =~= o0 + node_json_head(key@, node_view(*node)));
}

fn write_node_body(out: &mut String, node: &Node)
    ensures
        final(out)@ == old(out)@ + node_json_body(node_view(*node)),
{
    let ghost o0 = out@;
    push_str(out, ", \"children\": ");
    write_str_array(out, &node.children);
    push_str(out, ", \"axis\": ");
    write_opt_axis(out, &node.axis);
    assert(out@ =~= o0 + node_json_body(node_view(*node)));
}

fn write_node_tail(out: &mut String, node: &Node)
    ensures
        final(out)@ == old(out)@ + node_json_tail(node_view(*node)),
{
    let ghost o0 = out@;
    push_str(out, ", \"description\": ");
    write_opt_string(out, &node.description);
    push_str(out, ", \"oneLinerRoot\": ");
    write_opt_string(out, &node.one_liner_root);
    out.push('}');
    assert(out@ =~= o0 + node_json_tail(node_view(*node)));
}

/// Write one `"stroke": {...}` node entry.
fn write_node(out: &mut String, key: &str, node: &Node)
    ensures
        final(out)@ == old(out)@ + node_json(key@, node_view(*node)),
{
    let ghost o0 = out@;
    let ghost h = node_json_head(key@, node_view(*node));
    let ghost b = node_json_body(node_view(*node));
    let ghost t = node_json_tail(node_view(*node));
    write_node_head(out, key, node);
    write_node_body(out, node);
    write_node_tail(out, node);
    proof {
        vstd::seq_lib::lemma_concat_associative(o0, h, b);
        vstd::seq_lib::lemma_concat_associative(o0, h + b, t);
    }
}

/// Write the newline ending item `i` of `len`, after a comma unless it is
/// the last.
fn write_line_end(out: &mut String, i: usize, len: usize)
    requires
        i < len,
    ensures
        final(out)@ == old(out)@ + line_end(i as int, len as int),
{
    let ghost o0 = out@;
    if i + 1 < len {
        out.push(',');
    }
    out.push('\n');
    assert(out@ =~= o0 + line_end(i as int, len as int));
}

/// Write every category object, one per line.
fn write_categories(out: &mut String, categories: &Vec<Category>)
    ensures
        final(out)@ == old(out)@ + categories_json(categories_view(categories@), categories@.len()),
{
    let ghost o0 = out@;
    let ghost cv = categories_view(categories@);
    let mut i: usize = 0;
    while i < categories.len()
        invariant
            i <= categories@.len(),
            cv == categories_view(categories@),
            out@ == o0 + categories_json(cv, i as nat),
        decreases categories.len() - i,
    {
        let cat = &categories[i];
        assert(cv[i as int] == category_view(*cat));
        let ghost before = out@;
        push_str(out, "{\"label\": ");
        push_quoted(out, cat.label.as_str());
        push_str(out, ", \"roots\": ");
        write_str_array(out, &cat.roots);
        out.push('}');
        write_line_end(out, i, categories.len());
        assert(out@ =~= before + ("{\"label\": "@ + json_quoted(cv[i as int].label) + ", \"roots\": "@ + str_array(
            cv[i as int].roots,
        ) + seq!['}'] + line_end(i as int, cv.len() as int)));
        i = i + 1;
    }
}

/// Write every node entry, one per line, in first-seen order.
fn write_nodes(out: &mut String, node_order: &Vec<String>, nodes: &Vec<(String, Node)>)
    ensures
        final(out)@ == old(out)@ + nodes_json(strs_view(node_order@), nodes_view(nodes@), node_order@.len()),
{
    let ghost o0 = out@;
    let ghost ov = strs_view(node_order@);
    let ghost nv = nodes_view(nodes@);
    let mut i: usize = 0;
    while i < node_order.len()
        invariant
            i <= node_order@.len(),
            ov == strs_view(node_order@),
            nv == nodes_view(nodes@),
            out@ == o0 + nodes_json(ov, nv, i as nat),
        decreases node_order.len() - i,
    {
        let key = &node_order[i];
        let ghost before = out@;
        let fi = find_node(nodes, key.as_str());
        proof {
            lemma_node_find(nv, key@);
        }
        if fi < nodes.len() {
            write_node(out, key.as_str(), &nodes[fi].1);
        }
        let ghost mid = out@;
        assert(mid == before + match node_get(nv, ov[i as int]) {
            Some(nd) => node_json(ov[i as int], nd),
            None => Seq::<char>::empty(),
        });
        write_line_end(out, i, node_order.len());
        i = i + 1;
    }
}

/// Serialize the tree.
pub fn to_json(tree: &Tree) -> (r: String)
    ensures
        r@ == tree_json(tree_view(*tree)),
{
    let mut out = String::new();
    push_str(&mut out, "{\n\"categories\": [\n");
    write_categories(&mut out, &tree.categories);
    push_str(&mut out, "],\n\"nodes\": {\n");
    write_nodes(&mut out, &tree.node_order, &tree.nodes);
    push_str(&mut out, "}\n}\n");
    out
}

} // verus!
