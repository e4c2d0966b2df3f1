//! Second pass over the tree: buckets leaves into axis groups, splices in
//! section nodes, appends synthetic axis nodes, and resolves category roots
//! from the same buckets.
use vstd::prelude::*;
use super::axis::{
    index_of, kids_append, kids_view, lemma_index_of, lemma_index_of_unique, push_kid, Axis, AxisV, ChoiceV, Grouped,
    GroupedV, Leaf, LeafV, axis_view, grouped_view, leaf_view, leaves_view,
};
use super::comments::{label_for, label_for_spec, markers_view, section_for, section_for_spec, Marker, MarkerV};
use super::{
    category_view, categories_view, node_view, nodes_view, position, position_spec, section_parts, section_parts_spec,
    Category, CategoryV, Node, NodeV,
};
use crate::expand::{typed_view, typeds_view, TypedEntry, TypedV};
use crate::parse::{copy_opt, copy_strings, opt_view, strs_view};
use crate::text::{copy_str, push_str, str_eq};

verus! {

broadcast use vstd::seq_lib::group_seq_properties;

/// A synthetic section node to splice into the tree: its own position key,
/// the parent stroke position it hangs off, and the label to display.
pub struct Section {
    /// The section node's key (also its bucketing position).
    pub key: String,
    /// The parent stroke position whose children list gains this section.
    pub parent: String,
    /// The label shown for the section.
    pub label: String,
}

/// Model of a section.
pub struct SectionV {
    pub key: Seq<char>,
    pub parent: Seq<char>,
    pub label: Seq<char>,
}

/// The model of a section.
pub open spec fn section_view(s: Section) -> SectionV {
    SectionV { key: s.key@, parent: s.parent@, label: s.label@ }
}

/// The models of a list of sections.
pub open spec fn sections_view(v: Seq<Section>) -> Seq<SectionV> {
    v.map_values(|s: Section| section_view(s))
}

/// Every leaf's bucketing input plus the section nodes to splice in, both
/// in first-seen (file) order.
pub struct LeafInputs<'a> {
    /// One entry per recorded node, ready for axis bucketing.
    pub leaves: Vec<Leaf<'a>>,
    /// Synthetic section nodes, deduplicated in first-seen order.
    pub sections: Vec<Section>,
}

/// The tree position of a node whose representative entry is `e`.
pub open spec fn leaf_position(key: Seq<char>, e: TypedV, cats: Seq<MarkerV>, secs: Seq<MarkerV>) -> Seq<char> {
    position_spec(key, label_for_spec(cats, e.source.line), section_for_spec(secs, cats, e.source.line))
}

/// The leaves of the nodes that have a representative entry.
pub open spec fn leaves_spec(keys: Seq<Seq<char>>, reps: Seq<TypedV>, cats: Seq<MarkerV>, secs: Seq<MarkerV>) -> Seq<LeafV> {
    let n = if keys.len() <= reps.len() {
        keys.len()
    } else {
        reps.len()
    };
    Seq::new(n, |i: int| LeafV { key: keys[i], position: leaf_position(keys[i], reps[i], cats, secs), entry: reps[i] })
}

/// The keys of a list of sections.
pub open spec fn section_keys(s: Seq<SectionV>) -> Seq<Seq<char>> {
    s.map_values(|x: SectionV| x.key)
}

/// The first-seen sections among the first `n` leaf positions.
pub open spec fn sections_fold(ls: Seq<LeafV>, n: nat) -> Seq<SectionV>
    decreases n,
{
    if n == 0 || n > ls.len() {
        Seq::empty()
    } else {
        let prev = sections_fold(ls, (n - 1) as nat);
        let pos = ls[n - 1].position;
        match section_parts_spec(pos) {
            Some((parent, label)) => if section_keys(prev).contains(pos) {
                prev
            } else {
                prev.push(SectionV { key: pos, parent, label })
            },
            None => prev,
        }
    }
}

/// Record a first-seen section when `pos` is a synthetic section key.
fn record_section(secs: &mut Vec<Section>, pos: &str)
    ensures
        sections_view(final(secs)@) == match section_parts_spec(pos@) {
            Some((parent, label)) => if section_keys(sections_view(old(secs)@)).contains(pos@) {
                sections_view(old(secs)@)
            } else {
                sections_view(old(secs)@).push(SectionV { key: pos@, parent, label })
            },
            None => sections_view(old(secs)@),
        },
{
    let parts = section_parts(pos);
    let (parent, label) = match parts {
        Some(p) => p,
        None => {
            return;
        },
    };
    let ghost sv = sections_view(secs@);
    let mut i: usize = 0;
    while i < secs.len()
        invariant
            i <= secs@.len(),
            sv == sections_view(secs@),
            forall|j: int| 0 <= j < i ==> #[trigger] section_keys(sv)[j] != pos@,
        decreases secs.len() - i,
    {
        if str_eq(secs[i].key.as_str(), pos) {
            assert(section_keys(sv)[i as int] == pos@);
            return;
        }
        i = i + 1;
    }
    assert(!section_keys(sv).contains(pos@));
    let s = Section { key: copy_str(pos), parent, label };
    let ghost v = section_view(s);
    secs.push(s);
    assert(sections_view(secs@) == sv.push(v));
}

/// The leaves' representative entries.
pub open spec fn reps_view(v: Seq<&TypedEntry>) -> Seq<TypedV> {
    v.map_values(|e: &TypedEntry| typed_view(*e))
}

/// Build every leaf's grouping input (key, tree position, representative
/// entry) and the section nodes their positions imply. A descendant under
/// an active section gets a synthetic `sec:` position, which also records a
/// section to splice under the shared parent stroke. `reps[i]` is the
/// representative entry of `node_order[i]`.
pub fn leaves<'a>(
    node_order: &Vec<String>,
    reps: &Vec<&'a TypedEntry>,
    categories: &Vec<Marker>,
    sections: &Vec<Marker>,
) -> (r: LeafInputs<'a>)
    ensures
        leaves_view(r.leaves@) == leaves_spec(
            strs_view(node_order@),
            reps_view(reps@),
            markers_view(categories@),
            markers_view(sections@),
        ),
        sections_view(r.sections@) == sections_fold(
            leaves_view(r.leaves@),
            r.leaves@.len(),
        ),
{
    let ghost spec_ls = leaves_spec(
        strs_view(node_order@),
        reps_view(reps@),
        markers_view(categories@),
        markers_view(sections@),
    );
    let n = if node_order.len() <= reps.len() {
        node_order.len()
    } else {
        reps.len()
    };
    let mut out: Vec<Leaf<'a>> = Vec::new();
    let mut secs: Vec<Section> = Vec::new();
    let mut i: usize = 0;
    while i < n
        invariant
            i <= n,
            n == spec_ls.len(),
            n <= node_order@.len(),
            n <= reps@.len(),
            spec_ls == leaves_spec(
                strs_view(node_order@),
                reps_view(reps@),
                markers_view(categories@),
                markers_view(sections@),
            ),
            leaves_view(out@) == spec_ls.take(i as int),
            sections_view(secs@) == sections_fold(spec_ls, i as nat),
        decreases n - i,
    {
        let entry: &'a TypedEntry = reps[i];
        let key = &node_order[i];
        let label = label_for(categories, entry.source.line);
        let section = section_for(sections, categories, entry.source.line);
        let pos = position(key.as_str(), label, section);
        proof {
            assert(spec_ls[i as int].position == pos@);
        }
        record_section(&mut secs, pos.as_str());
        let leaf = Leaf { key: copy_str(key.as_str()), position: pos, entry };
        let ghost lv0 = leaves_view(out@);
        let ghost lv = leaf_view(leaf);
        out.push(leaf);
        proof {
            assert(lv == spec_ls[i as int]);
            assert(leaves_view(out@) =~= lv0.push(lv));
            assert(spec_ls.take(i + 1) =~= spec_ls.take(i as int).push(lv));
            assert(sections_fold(spec_ls, (i + 1) as nat) == sections_fold(spec_ls.take(i + 1), (i + 1) as nat)) by {
                lemma_sections_fold_take(spec_ls, i + 1, (i + 1) as nat);
            }
        }
        i = i + 1;
    }
    proof {
        assert(spec_ls.take(i as int) =~= spec_ls);
    }
    LeafInputs { leaves: out, sections: secs }
}

proof fn lemma_sections_fold_take(ls: Seq<LeafV>, m: int, n: nat)
    requires
        0 <= n <= m <= ls.len(),
    ensures
        sections_fold(ls, n) == sections_fold(ls.take(m), n),
    decreases n,
{
    if n > 0 {
        lemma_sections_fold_take(ls, m, (n - 1) as nat);
    }
}

/// The node a section gets: no stroke of its own, just a labeled
/// drill-down.
pub open spec fn section_node_spec(label: Seq<char>) -> NodeV {
    NodeV {
        terminal: false,
        multi_line: None,
        one_liner: None,
        children: Seq::empty(),
        axis: None,
        description: Some(label),
        one_liner_root: None,
        synthetic: true,
    }
}

fn section_node(label: &str) -> (r: Node)
    ensures
        node_view(r) == section_node_spec(label@),
{
    let r = Node {
        terminal: false,
        multi_line: None,
        one_liner: None,
        children: Vec::new(),
        axis: None,
        description: Some(copy_str(label)),
        one_liner_root: None,
        synthetic: true,
    };
    assert(strs_view(r.children@) =~= Seq::<Seq<char>>::empty());
    r
}

/// The keys of a node table.
pub open spec fn node_keys(m: Seq<(Seq<char>, NodeV)>) -> Seq<Seq<char>> {
    m.map_values(|p: (Seq<char>, NodeV)| p.0)
}

/// The node recorded under `k`, if any.
pub open spec fn node_get(m: Seq<(Seq<char>, NodeV)>, k: Seq<char>) -> Option<NodeV> {
    let i = index_of(node_keys(m), k);
    if i < m.len() {
        Some(m[i].1)
    } else {
        None
    }
}

/// What `node_get` finds: the record at the first index of `k`.
pub proof fn lemma_node_find(m: Seq<(Seq<char>, NodeV)>, k: Seq<char>)
    ensures
        0 <= index_of(node_keys(m), k) <= m.len(),
        index_of(node_keys(m), k) < m.len() ==> node_get(m, k) == Some(m[index_of(node_keys(m), k)].1),
        index_of(node_keys(m), k) == m.len() ==> node_get(m, k) is None,
{
    lemma_index_of(node_keys(m), k);
}

/// `m` with `k` mapped to `v`: the record replaced in place, or appended.
pub open spec fn node_put(m: Seq<(Seq<char>, NodeV)>, k: Seq<char>, v: NodeV) -> Seq<(Seq<char>, NodeV)> {
    let i = index_of(node_keys(m), k);
    if i < m.len() {
        m.update(i, (k, v))
    } else {
        m.push((k, v))
    }
}

/// The list recorded under `k`, if any.
pub open spec fn kids_get(m: Seq<(Seq<char>, Seq<Seq<char>>)>, k: Seq<char>) -> Option<Seq<Seq<char>>> {
    let i = index_of(m.map_values(|p: (Seq<char>, Seq<Seq<char>>)| p.0), k);
    if i < m.len() {
        Some(m[i].1)
    } else {
        None
    }
}

/// Index of `k` in a node table, or its length.
pub fn find_node(m: &Vec<(String, Node)>, k: &str) -> (r: usize)
    ensures
        r as int == index_of(node_keys(nodes_view(m@)), k@),
        r <= m@.len(),
{
    let ghost ks = node_keys(nodes_view(m@));
    let mut i: usize = 0;
    while i < m.len()
        invariant
            i <= m@.len(),
            ks == node_keys(nodes_view(m@)),
            forall|j: int| 0 <= j < i ==> #[trigger] ks[j] != k@,
        decreases m.len() - i,
    {
        assert(ks[i as int] == m@[i as int].0@);
        if str_eq(m[i].0.as_str(), k) {
            proof {
                lemma_index_of_unique(ks, k@, i as int);
            }
            return i;
        }
        i = i + 1;
    }
    proof {
        lemma_index_of_unique(ks, k@, i as int);
    }
    i
}

/// Map `k` to `v` in a node table.
pub fn put_node(m: &mut Vec<(String, Node)>, k: String, v: Node)
    ensures
        nodes_view(final(m)@) == node_put(nodes_view(old(m)@), k@, node_view(v)),
{
    let ghost m0 = nodes_view(m@);
    let i = find_node(m, k.as_str());
    let ghost kv = k@;
    let ghost vv = node_view(v);
    if i < m.len() {
        m.set(i, (k, v));
        assert(nodes_view(m@) =~= m0.update(i as int, (kv, vv)));
    } else {
        m.push((k, v));
        assert(nodes_view(m@) =~= m0.push((kv, vv)));
    }
}

/// The index of `k` in a children table, or its length.
fn find_kids_index(m: &Vec<(String, Vec<String>)>, k: &str) -> (r: usize)
    ensures
        r as int == index_of(kids_view(m@).map_values(|p: (Seq<char>, Seq<Seq<char>>)| p.0), k@),
        r <= m@.len(),
{
    let ghost ks = kids_view(m@).map_values(|p: (Seq<char>, Seq<Seq<char>>)| p.0);
    let mut i: usize = 0;
    while i < m.len()
        invariant
            i <= m@.len(),
            ks == kids_view(m@).map_values(|p: (Seq<char>, Seq<Seq<char>>)| p.0),
            forall|j: int| 0 <= j < i ==> #[trigger] ks[j] != k@,
        decreases m.len() - i,
    {
        assert(ks[i as int] == m@[i as int].0@);
        if str_eq(m[i].0.as_str(), k) {
            proof {
                lemma_index_of_unique(ks, k@, i as int);
            }
            return i;
        }
        i = i + 1;
    }
    proof {
        lemma_index_of_unique(ks, k@, i as int);
    }
    i
}

/// One section spliced in: its node created on first sight, and its key
/// added (once) to its parent's children.
pub open spec fn link_one(
    order: Seq<Seq<char>>,
    nodes: Seq<(Seq<char>, NodeV)>,
    kids: Seq<(Seq<char>, Seq<Seq<char>>)>,
    s: SectionV,
) -> (Seq<Seq<char>>, Seq<(Seq<char>, NodeV)>, Seq<(Seq<char>, Seq<Seq<char>>)>) {
    let (o1, n1) = if node_get(nodes, s.key) is Some {
        (order, nodes)
    } else {
        (order.push(s.key), node_put(nodes, s.key, section_node_spec(s.label)))
    };
    let k1 = match kids_get(kids, s.parent) {
        Some(list) => if list.contains(s.key) {
            kids
        } else {
            kids_append(kids, s.parent, s.key)
        },
        None => kids_append(kids, s.parent, s.key),
    };
    (o1, n1, k1)
}

/// The first `n` sections spliced in, in order.
pub open spec fn link_fold(
    order: Seq<Seq<char>>,
    nodes: Seq<(Seq<char>, NodeV)>,
    kids: Seq<(Seq<char>, Seq<Seq<char>>)>,
    secs: Seq<SectionV>,
    n: nat,
) -> (Seq<Seq<char>>, Seq<(Seq<char>, NodeV)>, Seq<(Seq<char>, Seq<Seq<char>>)>)
    decreases n,
{
    if n == 0 || n > secs.len() {
        (order, nodes, kids)
    } else {
        let (o, m, k) = link_fold(order, nodes, kids, secs, (n - 1) as nat);
        link_one(o, m, k, secs[n - 1])
    }
}

/// `true` iff `v` holds `k`.
fn strs_contain(v: &Vec<String>, k: &str) -> (r: bool)
    ensures
        r == strs_view(v@).contains(k@),
{
    let mut i: usize = 0;
    while i < v.len()
        invariant
            i <= v@.len(),
            forall|j: int| 0 <= j < i ==> #[trigger] strs_view(v@)[j] != k@,
        decreases v.len() - i,
    {
        if str_eq(v[i].as_str(), k) {
            assert(strs_view(v@)[i as int] == k@);
            return true;
        }
        i = i + 1;
    }
    false
}

/// Create each section node and link it into its parent's children list,
/// in first-seen order.
fn link_sections(
    node_order: &mut Vec<String>,
    nodes: &mut Vec<(String, Node)>,
    children_of: &mut Vec<(String, Vec<String>)>,
    sections: &Vec<Section>,
)
    ensures
        (strs_view(final(node_order)@), nodes_view(final(nodes)@), kids_view(final(children_of)@)) == link_fold(
            strs_view(old(node_order)@),
            nodes_view(old(nodes)@),
            kids_view(old(children_of)@),
            sections_view(sections@),
            sections@.len(),
        ),
{
    let ghost o0 = strs_view(node_order@);
    let ghost n0 = nodes_view(nodes@);
    let ghost k0 = kids_view(children_of@);
    let ghost sv = sections_view(sections@);
    let mut i: usize = 0;
    while i < sections.len()
        invariant
            i <= sections@.len(),
            sv == sections_view(sections@),
            (strs_view(node_order@), nodes_view(nodes@), kids_view(children_of@)) == link_fold(o0, n0, k0, sv, i as nat),
        decreases sections.len() - i,
    {
        let sec = &sections[i];
        assert(sv[i as int] == section_view(*sec));
        let ghost ob = strs_view(node_order@);
        let ghost nb = nodes_view(nodes@);
        let ghost kb = kids_view(children_of@);
        let ni = find_node(nodes, sec.key.as_str());
        if ni >= nodes.len() {
            node_order.push(copy_str(sec.key.as_str()));
            assert(strs_view(node_order@) == ob.push(sec.key@));
            put_node(nodes, copy_str(sec.key.as_str()), section_node(sec.label.as_str()));
        }
        let ki = find_kids_index(children_of, sec.parent.as_str());
        proof {
            lemma_index_of(kb.map_values(|p: (Seq<char>, Seq<Seq<char>>)| p.0), sec.parent@);
        }
        if ki < children_of.len() {
            assert(kb[ki as int].1 == strs_view(children_of@[ki as int].1@));
            if !strs_contain(&children_of[ki].1, sec.key.as_str()) {
                push_kid(children_of, sec.parent.as_str(), copy_str(sec.key.as_str()));
            }
        } else {
            push_kid(children_of, sec.parent.as_str(), copy_str(sec.key.as_str()));
        }
        i = i + 1;
    }
}

/// Every node's children replaced by the list recorded under its key, if
/// any.
pub open spec fn apply_children_spec(
    nodes: Seq<(Seq<char>, NodeV)>,
    kids: Seq<(Seq<char>, Seq<Seq<char>>)>,
) -> Seq<(Seq<char>, NodeV)> {
    nodes.map_values(
        |p: (Seq<char>, NodeV)|
            match kids_get(kids, p.0) {
                Some(list) => (p.0, NodeV { children: list, ..p.1 }),
                None => p,
            },
    )
}

/// Populate every node's `children` from the bucketed positions.
fn apply_children(nodes: &mut Vec<(String, Node)>, children_of: &Vec<(String, Vec<String>)>)
    ensures
        nodes_view(final(nodes)@) == apply_children_spec(nodes_view(old(nodes)@), kids_view(children_of@)),
{
    let ghost n0 = nodes_view(nodes@);
    let ghost kv = kids_view(children_of@);
    let mut i: usize = 0;
    while i < nodes.len()
        invariant
            i <= nodes@.len(),
            nodes@.len() == n0.len(),
            kv == kids_view(children_of@),
            forall|j: int| 0 <= j < i ==> #[trigger] nodes_view(nodes@)[j] == apply_children_spec(n0, kv)[j],
            forall|j: int| i <= j < nodes@.len() ==> #[trigger] nodes_view(nodes@)[j] == n0[j],
        decreases nodes.len() - i,
    {
        let ki = find_kids_index(children_of, nodes[i].0.as_str());
        proof {
            lemma_index_of(kv.map_values(|p: (Seq<char>, Seq<Seq<char>>)| p.0), nodes@[i as int].0@);
        }
        if ki < children_of.len() {
            let ghost before = nodes_view(nodes@);
            assert(before[i as int] == n0[i as int]);
            assert(kv[ki as int] == (children_of@[ki as int].0@, strs_view(children_of@[ki as int].1@)));
            let (k, mut node) = nodes.remove(i);
            assert((k@, node_view(node)) == n0[i as int]);
            node.children = copy_strings(&children_of[ki].1);
            nodes.insert(i, (k, node));
            proof {
                assert(nodes_view(nodes@) =~= before.update(
                    i as int,
                    (n0[i as int].0, NodeV { children: kv[ki as int].1, ..n0[i as int].1 }),
                ));
            }
        }
        i = i + 1;
    }
    assert(nodes_view(nodes@) =~= apply_children_spec(n0, kv));
}

/// The preview fields an axis node mirrors from the node of its first
/// option, so a reader that only looks at those fields degrades
/// gracefully.
pub open spec fn axis_node_spec(nodes: Seq<(Seq<char>, NodeV)>, a: AxisV) -> NodeV {
    let m = if a.choices.len() > 0 {
        node_get(nodes, a.choices[0].key)
    } else {
        None
    };
    match m {
        Some(n) => NodeV { axis: Some(a), synthetic: false, ..n },
        None => NodeV {
            terminal: false,
            multi_line: None,
            one_liner: None,
            children: Seq::empty(),
            axis: Some(a),
            description: None,
            one_liner_root: None,
            synthetic: false,
        },
    }
}

/// The first `n` axes appended as nodes, in order.
pub open spec fn axes_fold(
    order: Seq<Seq<char>>,
    nodes: Seq<(Seq<char>, NodeV)>,
    axes: Seq<(Seq<char>, AxisV)>,
    n: nat,
) -> (Seq<Seq<char>>, Seq<(Seq<char>, NodeV)>)
    decreases n,
{
    if n == 0 || n > axes.len() {
        (order, nodes)
    } else {
        let (o, m) = axes_fold(order, nodes, axes, (n - 1) as nat);
        let (k, a) = axes[n - 1];
        (o.push(k), node_put(m, k, axis_node_spec(m, a)))
    }
}

/// Append one synthetic axis node, mirroring its first option's preview
/// fields.
fn add_axis_node(node_order: &mut Vec<String>, nodes: &mut Vec<(String, Node)>, axis_key: String, data: Axis)
    ensures
        strs_view(final(node_order)@) == strs_view(old(node_order)@).push(axis_key@),
        nodes_view(final(nodes)@) == node_put(
            nodes_view(old(nodes)@),
            axis_key@,
            axis_node_spec(nodes_view(old(nodes)@), axis_view(data)),
        ),
{
    let ghost nv = nodes_view(nodes@);
    let ghost av = axis_view(data);
    let node = if data.choices.len() > 0 {
        let fi = find_node(nodes, data.choices[0].key.as_str());
        proof {
            lemma_index_of(node_keys(nv), data.choices@[0].key@);
        }
        if fi < nodes.len() {
            let n = &nodes[fi].1;
            let node = Node {
                terminal: n.terminal,
                multi_line: copy_opt(&n.multi_line),
                one_liner: copy_opt(&n.one_liner),
                children: copy_strings(&n.children),
                axis: Some(data),
                description: copy_opt(&n.description),
                one_liner_root: copy_opt(&n.one_liner_root),
                synthetic: false,
            };
            assert(node_view(node) == axis_node_spec(nv, av));
            node
        } else {
            let node = Node {
                terminal: false,
                multi_line: None,
                one_liner: None,
                children: Vec::new(),
                axis: Some(data),
                description: None,
                one_liner_root: None,
                synthetic: false,
            };
            assert(strs_view(node.children@) =~= Seq::<Seq<char>>::empty());
            node
        }
    } else {
        let node = Node {
            terminal: false,
            multi_line: None,
            one_liner: None,
            children: Vec::new(),
            axis: Some(data),
            description: None,
            one_liner_root: None,
            synthetic: false,
        };
        assert(strs_view(node.children@) =~= Seq::<Seq<char>>::empty());
        node
    };
    let ghost o0 = strs_view(node_order@);
    node_order.push(copy_str(axis_key.as_str()));
    assert(strs_view(node_order@) == o0.push(axis_key@));
    put_node(nodes, axis_key, node);
}

/// Every category's roots replaced by the list recorded under its
/// synthetic position, if any.
pub open spec fn roots_spec(cats: Seq<CategoryV>, kids: Seq<(Seq<char>, Seq<Seq<char>>)>) -> Seq<CategoryV> {
    cats.map_values(
        |c: CategoryV|
            match kids_get(kids, "cat:"@ + c.label) {
                Some(r) => CategoryV { label: c.label, roots: r },
                None => c,
            },
    )
}

/// The whole grouping pass: sections spliced in, children on every node,
/// synthetic axis nodes appended, and category roots resolved from the same
/// buckets.
pub open spec fn apply_grouping_spec(
    order: Seq<Seq<char>>,
    nodes: Seq<(Seq<char>, NodeV)>,
    cats: Seq<CategoryV>,
    g: GroupedV,
    secs: Seq<SectionV>,
) -> (Seq<Seq<char>>, Seq<(Seq<char>, NodeV)>, Seq<CategoryV>) {
    let (o1, n1, k1) = link_fold(order, nodes, g.children_of, secs, secs.len());
    let n2 = apply_children_spec(n1, k1);
    let (o3, n3) = axes_fold(o1, n2, g.axes, g.axes.len());
    (o3, n3, roots_spec(cats, k1))
}

/// Apply the full grouping pass: section nodes spliced in, children on
/// every node, synthetic axis nodes appended, and category roots resolved
/// from the same buckets.
pub fn apply_grouping(
    node_order: &mut Vec<String>,
    nodes: &mut Vec<(String, Node)>,
    categories: &mut Vec<Category>,
    grouped: Grouped,
    sections: &Vec<Section>,
)
    ensures
        (strs_view(final(node_order)@), nodes_view(final(nodes)@), categories_view(final(categories)@))
            == apply_grouping_spec(
            strs_view(old(node_order)@),
            nodes_view(old(nodes)@),
            categories_view(old(categories)@),
            grouped_view(grouped),
            sections_view(sections@),
        ),
{
    let ghost gv = grouped_view(grouped);
    let ghost o0 = strs_view(node_order@);
    let ghost n0 = nodes_view(nodes@);
    let Grouped { children_of, axes } = grouped;
    let mut children_of = children_of;
    let mut axes = axes;
    link_sections(node_order, nodes, &mut children_of, sections);
    apply_children(nodes, &children_of);
    let ghost o1 = strs_view(node_order@);
    let ghost n2 = nodes_view(nodes@);
    let ghost k1 = kids_view(children_of@);
    let ghost av = axes@.map_values(|p: (String, Axis)| (p.0@, axis_view(p.1)));
    assert(av == gv.axes);
    let n_axes = axes.len();
    let mut i: usize = 0;
    while i < n_axes
        invariant
            i <= n_axes,
            axes@.len() == n_axes - i,
            forall|j: int| 0 <= j < axes@.len() ==> (#[trigger] axes@[j].0@, axis_view(axes@[j].1)) == av[j + i],
            av.len() == n_axes,
            (strs_view(node_order@), nodes_view(nodes@)) == axes_fold(o1, n2, av, i as nat),
        decreases n_axes - i,
    {
        let (k, a) = axes.remove(0);
        assert((k@, axis_view(a)) == av[i as int]);
        add_axis_node(node_order, nodes, k, a);
        i = i + 1;
    }
    let ghost c0 = categories_view(categories@);
    let mut c: usize = 0;
    while c < categories.len()
        invariant
            c <= categories@.len(),
            categories@.len() == c0.len(),
            k1 == kids_view(children_of@),
            forall|j: int| 0 <= j < c ==> #[trigger] categories_view(categories@)[j] == roots_spec(c0, k1)[j],
            forall|j: int| c <= j < categories@.len() ==> #[trigger] categories_view(categories@)[j] == c0[j],
        decreases categories.len() - c,
    {
        let mut pos = copy_str("cat:");
        push_str(&mut pos, categories[c].label.as_str());
        proof {
            reveal_strlit("cat:");
            assert(categories_view(categories@)[c as int] == c0[c as int]);
            assert(c0[c as int].label == categories@[c as int].label@);
        }
        let ki = find_kids_index(&children_of, pos.as_str());
        proof {
            lemma_index_of(k1.map_values(|p: (Seq<char>, Seq<Seq<char>>)| p.0), pos@);
        }
        if ki < children_of.len() {
            let ghost before = categories_view(categories@);
            assert(k1[ki as int] == (children_of@[ki as int].0@, strs_view(children_of@[ki as int].1@)));
            let mut cat = categories.remove(c);
            cat.roots = copy_strings(&children_of[ki].1);
            categories.insert(c, cat);
            proof {
                assert(categories_view(categories@) =~= before.update(
                    c as int,
                    CategoryV { label: c0[c as int].label, roots: k1[ki as int].1 },
                ));
            }
        }
        c = c + 1;
    }
    assert(categories_view(categories@) =~= roots_spec(c0, k1));
}

} // verus!
