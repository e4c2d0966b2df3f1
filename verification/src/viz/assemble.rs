//! Assembles a tree from expanded entries: renders each leaf's preview text,
//! then runs the bucketing and grouping passes to fill in children and axes
//! and resolve category roots.
use std::collections::HashMap;
use vstd::prelude::*;
use super::axis::{group, group_spec, index_of, lemma_index_of, lemma_index_of_unique};
use super::comments::{desc_for, desc_lookup, desc_map_view, label_for, label_for_spec, markers_view, Marker, MarkerV};
use super::grouping::{
    apply_grouping, apply_grouping_spec, find_node, leaves, leaves_spec, node_get, node_keys, node_put, put_node,
    reps_view, sections_fold,
};
use super::{
    categories_view, group_key, group_key_error, group_key_spec, node_view, nodes_view, tree_view, Category, CategoryV, Node, NodeV,
    Tree, TreeV,
};
use crate::expand::{typed_view, typeds_view, TypedEntry, TypedV};
use crate::parse::strs_view;
use crate::snippet::{render_snippet, snippet_error, snippet_spec};
use crate::stroke::keys::{first_where, lemma_first_where_unique};
use crate::text::{chars_of, copy_str, is_sep, str_eq, string_of_range};

verus! {

broadcast use vstd::seq_lib::group_seq_properties;

/// Model of the state built while inserting entries.
pub struct BuildV {
    pub order: Seq<Seq<char>>,
    pub nodes: Seq<(Seq<char>, NodeV)>,
    pub reps: Seq<TypedV>,
    pub cats: Seq<CategoryV>,
}

/// A freshly created node for an entry, with no rendered text yet.
pub open spec fn blank_node_spec(e: TypedV) -> NodeV {
    NodeV {
        terminal: e.terminal,
        multi_line: None,
        one_liner: None,
        children: Seq::empty(),
        axis: None,
        description: None,
        one_liner_root: None,
        synthetic: false,
    }
}

/// The first `/`-segment of a stroke (the whole stroke when it has none).
pub open spec fn root_segment_spec(stroke: Seq<char>) -> Seq<char> {
    stroke.take(first_where(stroke, is_sep('/')))
}

/// A node after one entry's rendered text is merged into it.
pub open spec fn leaf_update(n: NodeV, e: TypedV, text: Seq<char>, desc: Option<Seq<char>>) -> NodeV {
    let n1 = NodeV {
        terminal: e.terminal,
        description: match desc {
            Some(d) => Some(d),
            None => n.description,
        },
        ..n
    };
    if e.one_liner {
        NodeV { one_liner: Some(text), one_liner_root: Some(root_segment_spec(e.stroke)), ..n1 }
    } else {
        NodeV { multi_line: Some(text), ..n1 }
    }
}

/// One entry's text merged into the node under `key`, the node (and its
/// representative entry) created on first sight.
pub open spec fn insert_leaf_spec(st: BuildV, e: TypedV, key: Seq<char>, text: Seq<char>, desc: Option<Seq<char>>) -> BuildV {
    let st1 = if node_get(st.nodes, key) is Some {
        st
    } else {
        BuildV {
            order: st.order.push(key),
            nodes: node_put(st.nodes, key, blank_node_spec(e)),
            reps: st.reps.push(e),
            cats: st.cats,
        }
    };
    match node_get(st1.nodes, key) {
        Some(n) => BuildV { nodes: node_put(st1.nodes, key, leaf_update(n, e, text, desc)), ..st1 },
        None => st1,
    }
}

/// The categories with `label` recorded on first sight.
pub open spec fn ensure_category_spec(cats: Seq<CategoryV>, label: Seq<char>) -> Seq<CategoryV> {
    if cats.map_values(|c: CategoryV| c.label).contains(label) {
        cats
    } else {
        cats.push(CategoryV { label, roots: Seq::empty() })
    }
}

/// One entry rendered and recorded: its leaf node and its category; `None`
/// when its snippet cannot be rendered or its key cannot be formed.
pub open spec fn insert_entry_spec(st: BuildV, markers: Seq<MarkerV>, descs: Map<usize, Seq<char>>, e: TypedV) -> Option<BuildV> {
    match snippet_spec(e) {
        None => None,
        Some((_k, body, _t)) => match group_key_spec(e) {
            None => None,
            Some(key) => {
                let st1 = insert_leaf_spec(st, e, key, body, desc_lookup(descs, e.source.line));
                Some(BuildV { cats: ensure_category_spec(st1.cats, label_for_spec(markers, e.source.line)), ..st1 })
            },
        },
    }
}

/// The state after the first `n` entries, or `None` at the first failure.
pub open spec fn insert_fold(es: Seq<TypedV>, markers: Seq<MarkerV>, descs: Map<usize, Seq<char>>, n: nat) -> Option<BuildV>
    decreases n,
{
    if n == 0 || n > es.len() {
        Some(BuildV { order: Seq::empty(), nodes: Seq::empty(), reps: Seq::empty(), cats: Seq::empty() })
    } else {
        match insert_fold(es, markers, descs, (n - 1) as nat) {
            None => None,
            Some(st) => insert_entry_spec(st, markers, descs, es[n - 1]),
        }
    }
}

/// Why an entry cannot be recorded: its snippet's error, else its key's.
pub open spec fn entry_error(e: TypedV) -> Seq<char> {
    if snippet_spec(e) is None {
        snippet_error(e.template)
    } else {
        group_key_error(e)
    }
}

/// Why the first `n` entries cannot all be recorded: the first failure.
pub open spec fn insert_error(es: Seq<TypedV>, markers: Seq<MarkerV>, descs: Map<usize, Seq<char>>, n: nat) -> Seq<char>
    decreases n,
{
    if n == 0 || n > es.len() {
        Seq::empty()
    } else if insert_fold(es, markers, descs, (n - 1) as nat) is None {
        insert_error(es, markers, descs, (n - 1) as nat)
    } else {
        entry_error(es[n - 1])
    }
}

/// The whole tree for a list of entries and the source's markers; `None`
/// when some entry cannot be rendered.
pub open spec fn build_spec(
    es: Seq<TypedV>,
    markers: Seq<MarkerV>,
    secs: Seq<MarkerV>,
    descs: Map<usize, Seq<char>>,
) -> Option<TreeV> {
    match insert_fold(es, markers, descs, es.len()) {
        None => None,
        Some(st) => {
            let ls = leaves_spec(st.order, st.reps, markers, secs);
            let (o, n, c) = apply_grouping_spec(st.order, st.nodes, st.cats, group_spec(ls), sections_fold(ls, ls.len()));
            Some(TreeV { categories: c, node_order: o, nodes: n })
        },
    }
}

/// The state built while inserting entries.
struct BuildState<'a> {
    /// First-seen node key order (preserves file order in the output).
    node_order: Vec<String>,
    /// Every node built so far, keyed by its grouping key.
    nodes: Vec<(String, Node)>,
    /// Each key's first-seen representative entry, parallel to `node_order`.
    reps: Vec<&'a TypedEntry>,
    /// Categories in first-seen order.
    categories: Vec<Category>,
}

spec fn state_view(s: BuildState) -> BuildV {
    BuildV {
        order: strs_view(s.node_order@),
        nodes: nodes_view(s.nodes@),
        reps: reps_view(s.reps@),
        cats: categories_view(s.categories@),
    }
}

fn blank_node(entry: &TypedEntry) -> (r: Node)
    ensures
        node_view(r) == blank_node_spec(typed_view(*entry)),
{
    let r = Node {
        terminal: entry.terminal,
        multi_line: None,
        one_liner: None,
        children: Vec::new(),
        axis: None,
        description: None,
        one_liner_root: None,
        synthetic: false,
    };
    assert(strs_view(r.children@) =~= Seq::<Seq<char>>::empty());
    r
}

/// The first `/`-segment of `stroke` (the whole string when it has none):
/// the physical stroke a one-liner variant's `U` key actually rides.
fn root_segment(stroke: &str) -> (r: String)
    ensures
        r@ == root_segment_spec(stroke@),
{
    let cs = chars_of(stroke);
    let mut i: usize = 0;
    while i < cs.len() && cs[i] != '/'
        invariant
            i <= cs@.len(),
            cs@ == stroke@,
            forall|j: int| 0 <= j < i ==> !is_sep('/')(#[trigger] cs@[j]),
        decreases cs.len() - i,
    {
        i = i + 1;
    }
    proof {
        lemma_first_where_unique(stroke@, is_sep('/'), i as int);
    }
    string_of_range(cs.as_slice(), 0, i)
}

/// Merge one entry's rendered text into the node under `key`, creating the
/// node and recording a representative entry on first sight.
fn insert_leaf<'a>(state: &mut BuildState<'a>, entry: &'a TypedEntry, key: &str, text: String, desc: Option<&str>)
    ensures
        state_view(*final(state)) == insert_leaf_spec(
            state_view(*old(state)),
            typed_view(*entry),
            key@,
            text@,
            match desc {
                Some(d) => Some(d@),
                None => None,
            },
        ),
{
    let ghost e = typed_view(*entry);
    let ghost s0 = state_view(*state);
    let ghost dv = match desc {
        Some(d) => Some(d@),
        None => None::<Seq<char>>,
    };
    let mut i = find_node(&state.nodes, key);
    proof {
        lemma_index_of(node_keys(s0.nodes), key@);
    }
    if i >= state.nodes.len() {
        let ghost o0 = strs_view(state.node_order@);
        state.node_order.push(copy_str(key));
        assert(strs_view(state.node_order@) == o0.push(key@));
        let ghost r0 = reps_view(state.reps@);
        state.reps.push(entry);
        assert(reps_view(state.reps@) == r0.push(e));
        put_node(&mut state.nodes, copy_str(key), blank_node(entry));
        proof {
            let ks = node_keys(nodes_view(state.nodes@));
            assert(ks == node_keys(s0.nodes).push(key@));
            lemma_index_of_unique(ks, key@, i as int);
        }
    }
    let ghost s1 = state_view(*state);
    proof {
        lemma_index_of(node_keys(s1.nodes), key@);
    }
    assert(i < state.nodes@.len());
    let ghost n1 = s1.nodes[i as int].1;
    let (k, mut node) = state.nodes.remove(i);
    assert(node_view(node) == n1);
    node.terminal = entry.terminal;
    match desc {
        Some(d) => {
            node.description = Some(copy_str(d));
        },
        None => {},
    }
    if entry.one_liner {
        node.one_liner = Some(text);
        node.one_liner_root = Some(root_segment(entry.stroke.as_str()));
    } else {
        node.multi_line = Some(text);
    }
    assert(node_view(node) == leaf_update(n1, e, text@, dv));
    state.nodes.insert(i, (k, node));
    proof {
        assert(nodes_view(state.nodes@) =~= s1.nodes.update(i as int, (key@, leaf_update(n1, e, text@, dv))));
    }
}

/// Record `label`'s category on first sight, in file order.
fn ensure_category(categories: &mut Vec<Category>, label: &str)
    ensures
        categories_view(final(categories)@) == ensure_category_spec(categories_view(old(categories)@), label@),
{
    let ghost cv = categories_view(categories@);
    let ghost labels = cv.map_values(|c: CategoryV| c.label);
    let mut i: usize = 0;
    while i < categories.len()
        invariant
            i <= categories@.len(),
            cv == categories_view(categories@),
            labels == cv.map_values(|c: CategoryV| c.label),
            forall|j: int| 0 <= j < i ==> #[trigger] labels[j] != label@,
        decreases categories.len() - i,
    {
        if str_eq(categories[i].label.as_str(), label) {
            assert(labels[i as int] == label@);
            return;
        }
        i = i + 1;
    }
    assert(!labels.contains(label@));
    let c = Category { label: copy_str(label), roots: Vec::new() };
    assert(strs_view(c.roots@) =~= Seq::<Seq<char>>::empty());
    let ghost v = category_view_of(&c);
    categories.push(c);
    assert(categories_view(categories@) == cv.push(v));
}

spec fn category_view_of(c: &Category) -> CategoryV {
    super::category_view(*c)
}

/// Render and record one entry: its leaf node, and its category. Fails with
/// the rendering or stroke error's message.
fn insert_entry<'a>(
    state: &mut BuildState<'a>,
    markers: &Vec<Marker>,
    descs: &HashMap<usize, String>,
    entry: &'a TypedEntry,
) -> (r: Result<(), String>)
    ensures
        match insert_entry_spec(state_view(*old(state)), markers_view(markers@), desc_map_view(descs@), typed_view(*entry)) {
            Some(st) => r is Ok && state_view(*final(state)) == st,
            None => r matches Err(m) && m@ == entry_error(typed_view(*entry)),
        },
{
    let snippet = match render_snippet(entry) {
        Ok(s) => s,
        Err(e) => {
            return Err(copy_str(e.message()));
        },
    };
    let key = match group_key(entry) {
        Ok(k) => k,
        Err(m) => return Err(m),
    };
    let desc = desc_for(descs, entry.source.line);
    insert_leaf(state, entry, key.as_str(), snippet.body, desc);
    let label = label_for(markers, entry.source.line);
    ensure_category(&mut state.categories, label);
    Ok(())
}

/// Build the full tree from expanded entries and the source's category,
/// section and description markers. Fails with the first entry's rendering
/// failure message.
pub fn build(
    typed: &Vec<TypedEntry>,
    markers: &Vec<Marker>,
    sections: &Vec<Marker>,
    descs: &HashMap<usize, String>,
) -> (r: Result<Tree, String>)
    ensures
        match build_spec(typeds_view(typed@), markers_view(markers@), markers_view(sections@), desc_map_view(descs@)) {
            Some(t) => r matches Ok(tree) && tree_view(tree) == t,
            None => r matches Err(m) && m@ == insert_error(
                typeds_view(typed@),
                markers_view(markers@),
                desc_map_view(descs@),
                typed@.len() as nat,
            ),
        },
{
    let ghost es = typeds_view(typed@);
    let ghost mv = markers_view(markers@);
    let ghost dv = desc_map_view(descs@);
    let mut state = BuildState { node_order: Vec::new(), nodes: Vec::new(), reps: Vec::new(), categories: Vec::new() };
    proof {
        assert(strs_view(state.node_order@) =~= Seq::<Seq<char>>::empty());
        assert(nodes_view(state.nodes@) =~= Seq::<(Seq<char>, NodeV)>::empty());
        assert(reps_view(state.reps@) =~= Seq::<TypedV>::empty());
        assert(categories_view(state.categories@) =~= Seq::<CategoryV>::empty());
    }
    let mut i: usize = 0;
    while i < typed.len()
        invariant
            i <= typed@.len(),
            es == typeds_view(typed@),
            mv == markers_view(markers@),
            dv == desc_map_view(descs@),
            insert_fold(es, mv, dv, i as nat) == Some(state_view(state)),
        decreases typed.len() - i,
    {
        assert(es[i as int] == typed_view(typed@[i as int]));
        let res = insert_entry(&mut state, markers, descs, &typed[i]);
        match res {
            Ok(()) => {},
            Err(msg) => {
                proof {
                    lemma_insert_fold_none(es, mv, dv, (i + 1) as nat, es.len());
                }
                return Err(msg);
            },
        }
        i = i + 1;
    }
    let ghost st = state_view(state);
    let BuildState { mut node_order, mut nodes, reps, mut categories } = state;
    let inputs = leaves(&node_order, &reps, markers, sections);
    let grouped = group(&inputs.leaves);
    apply_grouping(&mut node_order, &mut nodes, &mut categories, grouped, &inputs.sections);
    Ok(Tree { categories, node_order, nodes })
}

proof fn lemma_insert_fold_none(es: Seq<TypedV>, mv: Seq<MarkerV>, dv: Map<usize, Seq<char>>, k: nat, n: nat)
    requires
        k <= n <= es.len(),
        insert_fold(es, mv, dv, k) is None,
    ensures
        insert_fold(es, mv, dv, n) is None,
        insert_error(es, mv, dv, n) == insert_error(es, mv, dv, k),
    decreases n - k,
{
    if k < n {
        lemma_insert_fold_none(es, mv, dv, k, (n - 1) as nat);
    }
}

} // verus!
