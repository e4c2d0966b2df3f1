//! The category/stroke tree a standalone viewer drills through: categories
//! (in file order) hold root-level choices; every stroke gets a node with
//! its rendered preview text, terminal flag and explicit next-step keys.
//! `@count`/`@fuse` alternatives of one authored line collapse into a single
//! choice ("axis") node instead of flat near-identical siblings.
//!
//! Categories come only from explicit `## label` markers in the source,
//! never guessed from ordinary prose comments.
use vstd::prelude::*;
use crate::expand::{typed_view, TypedEntry, TypedV};
use crate::expand::counts::{join_slash, lemma_join_slash_first, lemma_join_split};
use crate::expand::lineflag::one_liner_spec;
use crate::stroke::bank::add_key_spec;
use crate::stroke::keys::{
    canonical_stroke, first_where, has_num, law_parse_render, law_parsed_banks, lemma_first_where,
    lemma_first_where_unique, lemma_render_chars, parse_stroke, parsed_left, parsed_mid, parsed_right,
    render_keys, render_stroke, set_of, stroke_error, stroke_ok, KeySet,
};
use crate::text::{copy_str, is_sep, push_str, split_on, string_of_range, chars_of};

pub mod axis;
pub mod assemble;
pub mod comments;
pub mod grouping;
pub mod json;

use axis::{Axis, AxisV, axis_view};

verus! {

broadcast use vstd::seq_lib::group_seq_properties;

/// One stroke's rendered preview text(s) and its next-step keys.
pub struct Node {
    /// True for a completed construct (never itself extended by a later
    /// stroke).
    pub terminal: bool,
    /// Rendered preview text for the multi-line variant, if any.
    pub multi_line: Option<String>,
    /// Rendered preview text for the one-liner (`U`) variant, if any.
    pub one_liner: Option<String>,
    /// Next-step keys: real stroke children, or a single synthetic axis key
    /// standing in for several.
    pub children: Vec<String>,
    /// Present only on a synthetic choice node.
    pub axis: Option<Axis>,
    /// A `### text` comment attached to this stroke's authored line.
    pub description: Option<String>,
    /// The `U`-augmented first `/`-segment of this stroke's one-liner
    /// variant, present only when this node has a one-liner text.
    pub one_liner_root: Option<String>,
    /// True for a synthetic section grouping node.
    pub synthetic: bool,
}

/// Model of a node.
pub struct NodeV {
    pub terminal: bool,
    pub multi_line: Option<Seq<char>>,
    pub one_liner: Option<Seq<char>>,
    pub children: Seq<Seq<char>>,
    pub axis: Option<AxisV>,
    pub description: Option<Seq<char>>,
    pub one_liner_root: Option<Seq<char>>,
    pub synthetic: bool,
}

/// The model of an optional axis.
pub open spec fn opt_axis_view(a: Option<Axis>) -> Option<AxisV> {
    match a {
        Some(x) => Some(axis_view(x)),
        None => None,
    }
}

/// The model of a node.
pub open spec fn node_view(n: Node) -> NodeV {
    NodeV {
        terminal: n.terminal,
        multi_line: crate::parse::opt_view(n.multi_line),
        one_liner: crate::parse::opt_view(n.one_liner),
        children: crate::parse::strs_view(n.children@),
        axis: opt_axis_view(n.axis),
        description: crate::parse::opt_view(n.description),
        one_liner_root: crate::parse::opt_view(n.one_liner_root),
        synthetic: n.synthetic,
    }
}

/// A named group of root-level (first-stroke) choices, in file order.
pub struct Category {
    /// The `## label` this category was named from.
    pub label: String,
    /// Root-level next-step keys belonging to this category.
    pub roots: Vec<String>,
}

/// Model of a category.
pub struct CategoryV {
    pub label: Seq<char>,
    pub roots: Seq<Seq<char>>,
}

/// The model of a category.
pub open spec fn category_view(c: Category) -> CategoryV {
    CategoryV { label: c.label@, roots: crate::parse::strs_view(c.roots@) }
}

/// The models of a list of categories.
pub open spec fn categories_view(v: Seq<Category>) -> Seq<CategoryV> {
    v.map_values(|c: Category| category_view(c))
}

/// The models of a keyed node table.
pub open spec fn nodes_view(v: Seq<(String, Node)>) -> Seq<(Seq<char>, NodeV)> {
    v.map_values(|p: (String, Node)| (p.0@, node_view(p.1)))
}

/// Categories in file order, plus every node (leaf or choice) in
/// first-seen/first-created order.
pub struct Tree {
    /// Categories in file order.
    pub categories: Vec<Category>,
    /// Node keys in first-seen/first-created order.
    pub node_order: Vec<String>,
    /// Node data keyed by identity (one record per key).
    pub nodes: Vec<(String, Node)>,
}

/// Model of a tree.
pub struct TreeV {
    pub categories: Seq<CategoryV>,
    pub node_order: Seq<Seq<char>>,
    pub nodes: Seq<(Seq<char>, NodeV)>,
}

/// The model of a tree.
pub open spec fn tree_view(t: Tree) -> TreeV {
    TreeV {
        categories: categories_view(t.categories@),
        node_order: crate::parse::strs_view(t.node_order@),
        nodes: nodes_view(t.nodes@),
    }
}

impl Tree {
    /// Total number of distinct stroke nodes (leaves and choice nodes).
    pub fn node_count(&self) -> (n: usize)
        ensures
            n == self.node_order@.len(),
    {
        self.node_order.len()
    }

    /// Total number of categories.
    pub fn category_count(&self) -> (n: usize)
        ensures
            n == self.categories@.len(),
    {
        self.categories.len()
    }
}

/// A single stroke segment with the `U` key dropped from its middle bank,
/// re-rendered canonically; `None` when the segment is not a stroke.
pub open spec fn strip_u_spec(seg: Seq<char>) -> Option<Seq<char>> {
    if stroke_ok(seg) {
        Some(render_keys(has_num(seg), parsed_left(seg), parsed_mid(seg).remove('U'), parsed_right(seg)))
    } else {
        None
    }
}

/// The leaf-identity key of an entry: its stroke, with the one-liner `U`
/// removed from the first segment of a one-liner variant, so that variant
/// merges into the same node as its multi-line sibling. `None` when that
/// first segment is not a stroke.
pub open spec fn group_key_spec(e: TypedV) -> Option<Seq<char>> {
    if !e.one_liner {
        Some(e.stroke)
    } else {
        let p = first_where(e.stroke, is_sep('/'));
        if p < e.stroke.len() {
            match strip_u_spec(e.stroke.take(p)) {
                Some(f) => Some(f + seq!['/'] + e.stroke.skip(p + 1)),
                None => None,
            }
        } else {
            strip_u_spec(e.stroke)
        }
    }
}

/// Why an entry has no leaf-identity key: the parse error of its first
/// segment.
pub open spec fn group_key_error(e: TypedV) -> Seq<char> {
    let p = first_where(e.stroke, is_sep('/'));
    if p < e.stroke.len() {
        stroke_error(e.stroke.take(p))
    } else {
        stroke_error(e.stroke)
    }
}

/// Remove the `U` key from a single stroke segment's middle bank and
/// re-render it in canonical form.
fn strip_u(seg: &str) -> (r: Result<String, String>)
    ensures
        match strip_u_spec(seg@) {
            Some(s) => r matches Ok(t) && t@ == s,
            None => r matches Err(m) && m@ == stroke_error(seg@),
        },
{
    let mut keys = match parse_stroke(seg) {
        Ok(k) => k,
        Err(e) => {
            return Err(copy_str(e.message()));
        },
    };
    let old_mid = keys.mid.keys();
    let mut mid = KeySet::empty();
    let mut i: usize = 0;
    while i < old_mid.len()
        invariant
            i <= old_mid@.len(),
            mid.wf(),
            forall|c: char| #[trigger] mid@.contains(c) <==> (c != 'U' && old_mid@.take(i as int).contains(c)),
        decreases old_mid.len() - i,
    {
        let ch = old_mid[i];
        assert(old_mid@.take(i + 1) == old_mid@.take(i as int).push(ch));
        if ch != 'U' {
            mid.insert(ch);
        }
        i = i + 1;
    }
    proof {
        assert(old_mid@.take(old_mid@.len() as int) == old_mid@);
        assert(set_of(mid@) =~= set_of(old_mid@).remove('U'));
    }
    keys.mid = mid;
    Ok(render_stroke(&keys))
}

/// Index of the first `c` in `v`, or its length.
fn first_index_of(v: &Vec<char>, c: char) -> (r: usize)
    ensures
        r as int == first_where(v@, is_sep(c)),
{
    let mut i: usize = 0;
    while i < v.len() && v[i] != c
        invariant
            i <= v@.len(),
            forall|j: int| 0 <= j < i ==> !is_sep(c)(#[trigger] v@[j]),
        decreases v.len() - i,
    {
        i = i + 1;
    }
    proof {
        lemma_first_where_unique(v@, is_sep(c), i as int);
    }
    i
}

/// The leaf-identity key for an entry: its `/`-joined stroke, with the
/// injected `U` one-liner marker removed from the first segment's key set
/// (and re-rendered, since hyphen placement depends on which keys are
/// present), so a one-liner variant merges into the same node as its
/// multi-line sibling. Fails with the stroke error's message when that
/// segment is not a stroke.
pub fn group_key(entry: &TypedEntry) -> (r: Result<String, String>)
    ensures
        match group_key_spec(typed_view(*entry)) {
            Some(k) => r matches Ok(s) && s@ == k,
            None => r matches Err(m) && m@ == group_key_error(typed_view(*entry)),
        },
{
    if !entry.one_liner {
        return Ok(copy_str(entry.stroke.as_str()));
    }
    let cs = chars_of(entry.stroke.as_str());
    let p = first_index_of(&cs, '/');
    if p < cs.len() {
        let first = string_of_range(cs.as_slice(), 0, p);
        assert(first@ == entry.stroke@.take(p as int));
        let f = match strip_u(first.as_str()) {
            Ok(f) => f,
            Err(m) => return Err(m),
        };
        let mut out = f;
        out.push('/');
        let rest = string_of_range(cs.as_slice(), p + 1, cs.len());
        assert(rest@ == entry.stroke@.skip(p + 1));
        push_str(&mut out, rest.as_str());
        Ok(out)
    } else {
        strip_u(entry.stroke.as_str())
    }
}

/// Adding the one-liner `U` to a canonical segment and stripping it again
/// gives the segment back; the segment with `U` holds no `/`.
#[verifier::spinoff_prover]
proof fn lemma_strip_undoes_add_u(f: Seq<char>, g: Seq<char>)
    requires
        canonical_stroke(f),
        add_key_spec(f, 'U') == Some(g),
    ensures
        strip_u_spec(g) == Some(f),
        forall|j: int| 0 <= j < g.len() ==> !is_sep('/')(#[trigger] g[j]),
{
    law_parsed_banks(f);
    let num = has_num(f);
    let l = parsed_left(f);
    let m = parsed_mid(f);
    let r = parsed_right(f);
    assert(g == render_keys(num, l, m.insert('U'), r));
    law_parse_render(num, l, m.insert('U'), r);
    lemma_render_chars(num, l, m.insert('U'), r);
    assert(m.insert('U').remove('U') =~= m);
    assert forall|j: int| 0 <= j < g.len() implies !is_sep('/')(#[trigger] g[j]) by {
        assert(g[j] != '/');
    }
}

/// Replacing the first `/`-segment of `s` by `g` and joining again.
#[verifier::spinoff_prover]
proof fn lemma_replace_first_segment(s: Seq<char>, g: Seq<char>)
    ensures
        ({
            let p = first_where(s, is_sep('/'));
            join_slash(split_on(s, '/').update(0, g)) == (if p < s.len() {
                g + seq!['/'] + s.skip(p + 1)
            } else {
                g
            })
        }),
        first_where(s, is_sep('/')) < s.len() ==> split_on(s, '/')[0] == s.take(first_where(s, is_sep('/'))),
        first_where(s, is_sep('/')) >= s.len() ==> split_on(s, '/')[0] == s,
{
    let segs = split_on(s, '/');
    lemma_first_where(s, is_sep('/'));
    let p = first_where(s, is_sep('/'));
    if p < s.len() {
        let rest = s.skip(p + 1);
        lemma_join_split(rest);
        let tail = split_on(rest, '/');
        assert(segs == seq![s.take(p)] + tail);
        let u = segs.update(0, g);
        assert(u =~= seq![g] + tail);
        assert(u.drop_first() =~= tail);
        lemma_join_slash_first(u);
    } else {
        assert(segs == seq![s]);
        assert(segs.update(0, g) =~= seq![g]);
        assert(join_slash(seq![g]) == g);
    }
}

/// The one-liner variant of an entry merges into its multi-line sibling's
/// node: when the sibling's first stroke segment is already in canonical
/// form, removing the one-liner `U` again gives exactly the sibling's
/// stroke, which is the sibling's own leaf-identity key.
#[verifier::spinoff_prover]
pub proof fn law_one_liner_groups_with_sibling(e: TypedV, v: TypedV)
    requires
        !e.one_liner,
        one_liner_spec(e) == Some(v),
        canonical_stroke(split_on(e.stroke, '/')[0]),
    ensures
        group_key_spec(e) == Some(e.stroke),
        group_key_spec(v) == group_key_spec(e),
{
    let s = e.stroke;
    let f = split_on(s, '/')[0];
    let g = add_key_spec(f, 'U').unwrap();
    assert(v.stroke == join_slash(split_on(s, '/').update(0, g)));
    assert(v.one_liner);
    lemma_strip_undoes_add_u(f, g);
    lemma_replace_first_segment(s, g);
    lemma_first_where(s, is_sep('/'));
    let p = first_where(s, is_sep('/'));
    if p < s.len() {
        let rest = s.skip(p + 1);
        let vs = v.stroke;
        assert(vs == g + seq!['/'] + rest);
        assert forall|j: int| 0 <= j < g.len() implies !is_sep('/')(#[trigger] vs[j]) by {
            assert(vs[j] == g[j]);
        }
        assert(vs[g.len() as int] == '/');
        lemma_first_where_unique(vs, is_sep('/'), g.len() as int);
        assert(vs.take(g.len() as int) =~= g);
        assert(vs.skip(g.len() as int + 1) =~= rest);
        assert(s =~= s.take(p) + seq!['/'] + rest);
    } else {
        assert(v.stroke == g);
        lemma_first_where_unique(g, is_sep('/'), g.len() as int);
    }
}

/// Index of the last `c` in `s`, or -1.
pub open spec fn last_index_of(s: Seq<char>, c: char) -> int
    decreases s.len(),
{
    if s.len() == 0 {
        -1
    } else if s.last() == c {
        s.len() - 1
    } else {
        last_index_of(s.drop_last(), c)
    }
}

/// A leaf key's parent tree position: its stroke prefix for a descendant
/// (prefixed `sec:` and suffixed `>` and the section label when a section
/// is active), or the synthetic position `cat:` and the category label for
/// a root, so category-root grouping reuses the same bucketing as ordinary
/// descendants.
pub open spec fn position_spec(key: Seq<char>, category_label: Seq<char>, section: Option<Seq<char>>) -> Seq<char> {
    let p = last_index_of(key, '/');
    if p < 0 {
        "cat:"@ + category_label
    } else {
        match section {
            Some(s) => "sec:"@ + key.take(p) + seq!['>'] + s,
            None => key.take(p),
        }
    }
}

/// A leaf key's parent tree position (see `position_spec`).
pub fn position(key: &str, category_label: &str, section: Option<&str>) -> (r: String)
    ensures
        r@ == position_spec(key@, category_label@, match section {
            Some(s) => Some(s@),
            None => None,
        }),
{
    let cs = chars_of(key);
    let mut i = cs.len();
    while i > 0 && cs[i - 1] != '/'
        invariant
            i <= cs@.len(),
            cs@ == key@,
            last_index_of(key@, '/') == last_index_of(key@.take(i as int), '/'),
        decreases i,
    {
        assert(key@.take(i as int).drop_last() == key@.take(i - 1));
        i = i - 1;
    }
    proof {
        if i > 0 {
            assert(key@.take(i as int).last() == '/');
        }
    }
    if i == 0 {
        let mut out = copy_str("cat:");
        push_str(&mut out, category_label);
        proof {
            reveal_strlit("cat:");
        }
        return out;
    }
    let parent = string_of_range(cs.as_slice(), 0, i - 1);
    match section {
        Some(s) => {
            let mut out = copy_str("sec:");
            push_str(&mut out, parent.as_str());
            out.push('>');
            push_str(&mut out, s);
            proof {
                reveal_strlit("sec:");
            }
            out
        },
        None => parent,
    }
}

/// The parent stroke position and label of a `sec:` position: the text up
/// to the first `>` and the rest.
pub open spec fn section_parts_spec(pos: Seq<char>) -> Option<(Seq<char>, Seq<char>)> {
    if pos.len() >= 4 && pos.take(4) == "sec:"@ {
        let rest = pos.skip(4);
        let q = first_where(rest, is_sep('>'));
        if q < rest.len() {
            Some((rest.take(q), rest.skip(q + 1)))
        } else {
            None
        }
    } else {
        None
    }
}

/// The parent stroke position and label of a synthetic section position,
/// or `None` for any other position.
pub fn section_parts(pos: &str) -> (r: Option<(String, String)>)
    ensures
        match section_parts_spec(pos@) {
            Some((p, l)) => r matches Some((a, b)) && a@ == p && b@ == l,
            None => r is None,
        },
{
    let cs = chars_of(pos);
    proof {
        reveal_strlit("sec:");
    }
    if !(cs.len() >= 4 && cs[0] == 's' && cs[1] == 'e' && cs[2] == 'c' && cs[3] == ':') {
        proof {
            if pos@.len() >= 4 && pos@.take(4) == "sec:"@ {
                assert(pos@.take(4)[0] == 's' && pos@.take(4)[1] == 'e');
                assert(pos@.take(4)[2] == 'c' && pos@.take(4)[3] == ':');
            }
        }
        return None;
    }
    assert(pos@.take(4) =~= "sec:"@);
    let rest = crate::text::sub_vec(cs.as_slice(), 4, cs.len());
    assert(rest@ =~= pos@.skip(4));
    let q = first_index_of(&rest, '>');
    if q < rest.len() {
        Some((string_of_range(rest.as_slice(), 0, q), string_of_range(rest.as_slice(), q + 1, rest.len())))
    } else {
        None
    }
}

/// A section position splits back into the parent stroke and the label it
/// was built from, whenever the parent itself holds no `>`.
pub proof fn law_section_position_round_trip(key: Seq<char>, category_label: Seq<char>, label: Seq<char>)
    requires
        last_index_of(key, '/') >= 0,
        !key.take(last_index_of(key, '/')).contains('>'),
    ensures
        section_parts_spec(position_spec(key, category_label, Some(label))) == Some(
            (key.take(last_index_of(key, '/')), label),
        ),
{
    let p = last_index_of(key, '/');
    let parent = key.take(p);
    let pos = position_spec(key, category_label, Some(label));
    reveal_strlit("sec:");
    assert(pos == "sec:"@ + parent + seq!['>'] + label);
    assert(pos.take(4) =~= "sec:"@);
    let rest = pos.skip(4);
    assert(rest =~= parent + seq!['>'] + label);
    assert forall|j: int| 0 <= j < parent.len() implies !is_sep('>')(#[trigger] rest[j]) by {
        assert(rest[j] == parent[j]);
        if parent[j] == '>' {
            assert(parent.contains('>'));
        }
    }
    assert(rest[parent.len() as int] == '>');
    lemma_first_where_unique(rest, is_sep('>'), parent.len() as int);
    assert(rest.take(parent.len() as int) =~= parent);
    assert(rest.skip(parent.len() as int + 1) =~= label);
}

} // verus!
