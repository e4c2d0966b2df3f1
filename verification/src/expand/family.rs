//! Family-root fixup: a stroke that's a strict `/`-prefix of another
//! dictionary entry can never end an outline, no matter which pass marked it
//! terminal. `expand_types_one` only sees one entry at a time, so a "family
//! root" placeholder with zero `%t` slots falls through its
//! terminal-by-default branch. This pass runs once over the whole typed
//! batch, after every stroke is known, to correct exactly that.
use vstd::prelude::*;
use super::{typed_view, typeds_view, TypedEntry, TypedV};
use crate::parse::strs_view;
use super::counts::{join_slash, lemma_join_split};
use crate::stroke::keys::{first_where, lemma_first_where};
use crate::text::{copy_str, is_sep, push_str, split_on, split_string, str_eq};

verus! {

broadcast use vstd::seq_lib::group_seq_properties;

/// Segments joined as the prefix accumulator does: a `/` goes between
/// segments only once the accumulated text is nonempty.
pub open spec fn acc_join(segs: Seq<Seq<char>>) -> Seq<char>
    decreases segs.len(),
{
    if segs.len() == 0 {
        Seq::empty()
    } else {
        let a = acc_join(segs.drop_last());
        if a.len() == 0 {
            segs.last()
        } else {
            a + seq!['/'] + segs.last()
        }
    }
}

/// Every proper leading `/`-join of `stroke`, e.g. `"a/b/c"` yields `"a"`
/// and `"a/b"`.
pub open spec fn proper_prefixes_spec(stroke: Seq<char>) -> Seq<Seq<char>> {
    let segs = split_on(stroke, '/');
    Seq::new((segs.len() - 1) as nat, |k: int| acc_join(segs.take(k + 1)))
}

/// The proper prefixes of every stroke of `es`, in order.
pub open spec fn roots_spec(es: Seq<TypedV>) -> Seq<Seq<char>>
    decreases es.len(),
{
    if es.len() == 0 {
        Seq::empty()
    } else {
        roots_spec(es.drop_last()) + proper_prefixes_spec(es.last().stroke)
    }
}

/// Every proper leading `/`-join of `stroke`.
fn proper_prefixes(stroke: &str) -> (r: Vec<String>)
    ensures
        strs_view(r@) == proper_prefixes_spec(stroke@),
{
    let segs = split_string(stroke, '/');
    let ghost sv = strs_view(segs@);
    let n = segs.len();
    let mut prefixes: Vec<String> = Vec::new();
    let mut acc = String::new();
    let mut i: usize = 0;
    assert(sv.take(0) == Seq::<Seq<char>>::empty());
    while i + 1 < n
        invariant
            i + 1 <= n,
            n == segs@.len(),
            sv == strs_view(segs@),
            sv == split_on(stroke@, '/'),
            acc@ == acc_join(sv.take(i as int)),
            strs_view(prefixes@) == Seq::new(i as nat, |k: int| acc_join(sv.take(k + 1))),
        decreases n - i,
    {
        let ghost a0 = acc@;
        if !acc.as_str().is_empty() {
            acc.push('/');
        }
        push_str(&mut acc, segs[i].as_str());
        proof {
            assert(sv.take(i + 1).drop_last() == sv.take(i as int));
            assert(sv.take(i + 1).last() == segs@[i as int]@);
            if a0.len() == 0 {
                assert(acc@ == segs@[i as int]@);
            } else {
                assert(acc@ == a0 + seq!['/'] + segs@[i as int]@);
            }
            assert(acc@ == acc_join(sv.take(i + 1)));
        }
        let ghost before = strs_view(prefixes@);
        prefixes.push(copy_str(acc.as_str()));
        proof {
            assert(strs_view(prefixes@) == before.push(acc@));
            assert(Seq::new((i + 1) as nat, |k: int| acc_join(sv.take(k + 1))) =~= Seq::new(i as nat, |k: int| acc_join(sv.take(k + 1))).push(acc_join(sv.take(i + 1))));
        }
        i = i + 1;
    }
    prefixes
}

/// `v` holds a string equal to `s`.
fn holds(v: &Vec<String>, s: &str) -> (b: bool)
    ensures
        b == strs_view(v@).contains(s@),
{
    let mut i: usize = 0;
    while i < v.len()
        invariant
            i <= v@.len(),
            forall|j: int| 0 <= j < i ==> strs_view(v@)[j] != s@,
        decreases v.len() - i,
    {
        if str_eq(v[i].as_str(), s) {
            assert(strs_view(v@)[i as int] == s@);
            return true;
        }
        i = i + 1;
    }
    false
}

/// `e` with its terminal flag cleared when its stroke is a family root.
pub open spec fn fixed_entry(e: TypedV, roots: Seq<Seq<char>>) -> TypedV {
    TypedV { terminal: e.terminal && !roots.contains(e.stroke), ..e }
}

/// Force `terminal = false` on any entry whose stroke is a strict prefix of
/// some other entry's stroke in the same batch — it will always be
/// superseded by a longer chord, regardless of how it was classified.
pub fn fix_family_terminals(entries: &mut Vec<TypedEntry>)
    ensures
        final(entries)@.len() == old(entries)@.len(),
        forall|i: int| 0 <= i < old(entries)@.len() ==> #[trigger] typed_view(final(entries)@[i]) == fixed_entry(
            typed_view(old(entries)@[i]),
            roots_spec(typeds_view(old(entries)@)),
        ),
{
    let ghost es = typeds_view(entries@);
    let mut roots: Vec<String> = Vec::new();
    let mut i: usize = 0;
    assert(es.take(0) == Seq::<TypedV>::empty());
    while i < entries.len()
        invariant
            i <= entries@.len(),
            es == typeds_view(entries@),
            strs_view(roots@) == roots_spec(es.take(i as int)),
        decreases entries.len() - i,
    {
        let mut p = proper_prefixes(entries[i].stroke.as_str());
        let ghost a = roots@;
        let ghost b = p@;
        roots.append(&mut p);
        proof {
            assert(es.take(i + 1).drop_last() == es.take(i as int));
            assert(es.take(i + 1).last().stroke == entries@[i as int].stroke@);
            assert(strs_view(roots@) =~= strs_view(a) + strs_view(b));
        }
        i = i + 1;
    }
    assert(es.take(i as int) == es);
    let ghost rs = roots_spec(es);
    let ghost orig = entries@;
    let mut j: usize = 0;
    while j < entries.len()
        invariant
            j <= entries@.len(),
            entries@.len() == orig.len(),
            es == typeds_view(orig),
            strs_view(roots@) == rs,
            rs == roots_spec(es),
            forall|k: int| 0 <= k < j ==> #[trigger] typed_view(entries@[k]) == fixed_entry(typed_view(orig[k]), rs),
            forall|k: int| j <= k < entries@.len() ==> #[trigger] entries@[k] == orig[k],
        decreases entries.len() - j,
    {
        if entries[j].terminal && holds(&roots, entries[j].stroke.as_str()) {
            let mut c = entries[j].copy();
            c.terminal = false;
            entries.set(j, c);
        }
        j = j + 1;
    }
}

/// Every proper prefix of every stroke of `es` is among its roots.
proof fn lemma_roots_contain(es: Seq<TypedV>, j: int, x: Seq<char>)
    requires
        0 <= j < es.len(),
        proper_prefixes_spec(es[j].stroke).contains(x),
    ensures
        roots_spec(es).contains(x),
    decreases es.len(),
{
    let p = proper_prefixes_spec(es.last().stroke);
    let r = roots_spec(es.drop_last());
    if j == es.len() - 1 {
        let k = choose|k: int| 0 <= k < p.len() && p[k] == x;
        assert((r + p)[r.len() + k] == x);
    } else {
        lemma_roots_contain(es.drop_last(), j, x);
        let k = choose|k: int| 0 <= k < r.len() && r[k] == x;
        assert((r + p)[k] == x);
    }
}

/// An entry whose stroke is a strict `/`-prefix of another entry's stroke
/// in the same batch never ends an outline after the fix-up, and the fix-up
/// changes nothing but that flag: it only ever clears `terminal`.
pub proof fn law_family_root_never_terminal(es: Seq<TypedV>, i: int, j: int)
    requires
        0 <= i < es.len(),
        0 <= j < es.len(),
        proper_prefixes_spec(es[j].stroke).contains(es[i].stroke),
    ensures
        !fixed_entry(es[i], roots_spec(es)).terminal,
        fixed_entry(es[i], roots_spec(es)) == (TypedV { terminal: false, ..es[i] }),
{
    lemma_roots_contain(es, j, es[i].stroke);
}

/// `x` followed by `/` begins `t`: `x` is a strict `/`-prefix of `t`.
pub open spec fn family_prefix(x: Seq<char>, t: Seq<char>) -> bool {
    (x + seq!['/']).is_prefix_of(t)
}

/// Joining two runs of segments puts one `/` between their joins.
proof fn lemma_join_concat(a: Seq<Seq<char>>, b: Seq<Seq<char>>)
    requires
        a.len() >= 1,
        b.len() >= 1,
    ensures
        join_slash(a + b) == join_slash(a) + seq!['/'] + join_slash(b),
    decreases b.len(),
{
    if b.len() == 1 {
        assert((a + b).drop_last() =~= a);
        assert((a + b).last() == b[0]);
    } else {
        lemma_join_concat(a, b.drop_last());
        assert((a + b).drop_last() =~= a + b.drop_last());
        assert((a + b).last() == b.last());
        assert(join_slash(a + b) =~= join_slash(a) + seq!['/'] + join_slash(b));
    }
}

/// With a nonempty first segment the accumulator joins as `join_slash`
/// does, and the join is nonempty.
proof fn lemma_acc_join(segs: Seq<Seq<char>>)
    requires
        segs.len() >= 1,
        segs[0].len() > 0,
    ensures
        acc_join(segs) == join_slash(segs),
        join_slash(segs).len() > 0,
    decreases segs.len(),
{
    if segs.len() == 1 {
        assert(segs.drop_last() =~= Seq::<Seq<char>>::empty());
        assert(acc_join(segs.drop_last()) == Seq::<char>::empty());
        assert(segs.last() == segs[0]);
    } else {
        assert(segs.drop_last()[0] == segs[0]);
        lemma_acc_join(segs.drop_last());
        assert(acc_join(segs) == acc_join(segs.drop_last()) + seq!['/'] + segs.last());
    }
}

/// Every `/`-segment of `t` is nonempty: `t` is nonempty, neither starts
/// nor ends with `/`, and holds no `//`.
pub open spec fn no_empty_segment(t: Seq<char>) -> bool {
    &&& t.len() > 0
    &&& t[0] != '/'
    &&& t[t.len() - 1] != '/'
    &&& forall|i: int| 0 <= i < t.len() - 1 && #[trigger] t[i] == '/' ==> t[i + 1] != '/'
}

/// The first `/`-split of a stroke that does not start with `/`.
proof fn lemma_split_first(t: Seq<char>)
    requires
        t.len() > 0,
        t[0] != '/',
    ensures
        ({
            let p = first_where(t, is_sep('/'));
            &&& 0 < p <= t.len()
            &&& forall|j: int| 0 <= j < p ==> t[j] != '/'
            &&& p == t.len() ==> split_on(t, '/') == seq![t]
            &&& p < t.len() ==> t[p] == '/' && split_on(t, '/') == seq![t.take(p)] + split_on(t.skip(p + 1), '/')
                && t == t.take(p) + seq!['/'] + t.skip(p + 1)
        }),
{
    lemma_first_where(t, is_sep('/'));
    let p = first_where(t, is_sep('/'));
    assert(!is_sep('/')(t[0]));
    assert forall|j: int| 0 <= j < p implies t[j] != '/' by {
        assert(!is_sep('/')(t[j]));
    }
    if p < t.len() {
        assert(t =~= t.take(p) + seq!['/'] + t.skip(p + 1));
    }
}

/// Each strict `/`-prefix of a stroke, followed by `/`, begins it.
#[verifier::spinoff_prover]
proof fn lemma_prefix_forward(t: Seq<char>, k: int)
    requires
        t.len() > 0,
        t[0] != '/',
        0 <= k < split_on(t, '/').len() - 1,
    ensures
        family_prefix(acc_join(split_on(t, '/').take(k + 1)), t),
{
    let segs = split_on(t, '/');
    lemma_join_split(t);
    lemma_split_first(t);
    let p = first_where(t, is_sep('/'));
    if p < t.len() {
        assert(segs[0] == t.take(p));
    } else {
        assert(segs.len() == 1);
    }
    assert(segs.take(k + 1)[0] == segs[0]);
    lemma_acc_join(segs.take(k + 1));
    assert(segs =~= segs.take(k + 1) + segs.skip(k + 1));
    lemma_join_concat(segs.take(k + 1), segs.skip(k + 1));
    let y = join_slash(segs.take(k + 1));
    assert(t == y + seq!['/'] + join_slash(segs.skip(k + 1)));
    assert((y + seq!['/']) =~= t.subrange(0, y.len() as int + 1));
}

/// What follows the first `/` of a stroke with no empty segment has none.
proof fn lemma_rest_no_empty(t: Seq<char>)
    requires
        no_empty_segment(t),
        first_where(t, is_sep('/')) < t.len(),
    ensures
        no_empty_segment(t.skip(first_where(t, is_sep('/')) + 1)),
{
    lemma_split_first(t);
    let p = first_where(t, is_sep('/'));
    let rest = t.skip(p + 1);
    assert(p < t.len() - 1);
    assert(rest[0] == t[p + 1]);
    assert(rest[rest.len() - 1] == t[t.len() - 1]);
    assert forall|i: int| 0 <= i < rest.len() - 1 && #[trigger] rest[i] == '/' implies rest[i + 1] != '/' by {
        assert(rest[i] == t[p + 1 + i] && rest[i + 1] == t[p + 2 + i]);
    }
}

/// The strict prefixes of a stroke past its first one are its first segment,
/// `/`, and a strict prefix of the rest.
#[verifier::spinoff_prover]
proof fn lemma_prefix_cons(t: Seq<char>, k: int)
    requires
        no_empty_segment(t),
        first_where(t, is_sep('/')) < t.len(),
        0 <= k < proper_prefixes_spec(t.skip(first_where(t, is_sep('/')) + 1)).len(),
    ensures
        ({
            let p = first_where(t, is_sep('/'));
            &&& k + 1 < proper_prefixes_spec(t).len()
            &&& proper_prefixes_spec(t)[k + 1] == t.take(p) + seq!['/'] + proper_prefixes_spec(t.skip(p + 1))[k]
        }),
{
    lemma_split_first(t);
    lemma_rest_no_empty(t);
    let p = first_where(t, is_sep('/'));
    let rest = t.skip(p + 1);
    let segs = split_on(t, '/');
    let tail = split_on(rest, '/');
    lemma_split_first(rest);
    assert(tail[0].len() > 0);
    assert(tail.take(k + 1)[0] == tail[0]);
    lemma_acc_join(tail.take(k + 1));
    assert(segs.take(k + 2) =~= seq![t.take(p)] + tail.take(k + 1));
    lemma_join_concat(seq![t.take(p)], tail.take(k + 1));
    assert(join_slash(seq![t.take(p)]) == t.take(p));
    assert(segs.take(k + 2)[0] == t.take(p));
    lemma_acc_join(segs.take(k + 2));
}

/// The first strict prefix of a stroke with a `/` is its first segment.
#[verifier::spinoff_prover]
proof fn lemma_prefix_first(t: Seq<char>)
    requires
        no_empty_segment(t),
        first_where(t, is_sep('/')) < t.len(),
    ensures
        proper_prefixes_spec(t).len() > 0,
        proper_prefixes_spec(t)[0] == t.take(first_where(t, is_sep('/'))),
{
    lemma_split_first(t);
    let p = first_where(t, is_sep('/'));
    let segs = split_on(t, '/');
    lemma_join_split(t.skip(p + 1));
    assert(segs.take(1) =~= seq![t.take(p)]);
    lemma_acc_join(segs.take(1));
    assert(join_slash(seq![t.take(p)]) == t.take(p));
}

/// A text that, followed by `/`, begins `t` is the part of `t` before a `/`.
proof fn lemma_family_prefix_take(x: Seq<char>, t: Seq<char>)
    requires
        family_prefix(x, t),
    ensures
        x.len() < t.len(),
        t[x.len() as int] == '/',
        x == t.take(x.len() as int),
{
    let m = x.len() as int;
    assert(t[m] == (x + seq!['/'])[m]);
    assert(x =~= t.take(m)) by {
        assert forall|i: int| 0 <= i < m implies x[i] == t[i] by {
            assert((x + seq!['/'])[i] == t.subrange(0, m + 1)[i]);
        }
    }
}

/// Past the first segment, a prefix followed by `/` continues as one of the
/// rest.
proof fn lemma_family_prefix_rest(t: Seq<char>, x: Seq<char>, p: int)
    requires
        0 <= p < x.len(),
        x.len() < t.len(),
        t[p] == '/',
        t[x.len() as int] == '/',
        x == t.take(x.len() as int),
    ensures
        family_prefix(t.skip(p + 1).take(x.len() - p - 1), t.skip(p + 1)),
        x == t.take(p) + seq!['/'] + t.skip(p + 1).take(x.len() - p - 1),
{
    let m = x.len() as int;
    let rest = t.skip(p + 1);
    let m2 = m - p - 1;
    let x2 = rest.take(m2);
    assert((x2 + seq!['/']) =~= rest.subrange(0, m2 + 1)) by {
        assert forall|i: int| 0 <= i < m2 + 1 implies #[trigger] (x2 + seq!['/'])[i] == rest.subrange(0, m2 + 1)[i] by {
            assert(rest[i] == t[p + 1 + i]);
        }
    }
    assert(x =~= t.take(p) + seq!['/'] + x2);
}

/// A text that, followed by `/`, begins the stroke is one of its strict
/// `/`-prefixes.
#[verifier::spinoff_prover]
proof fn lemma_prefix_backward(t: Seq<char>, x: Seq<char>)
    requires
        no_empty_segment(t),
        family_prefix(x, t),
    ensures
        proper_prefixes_spec(t).contains(x),
    decreases t.len(),
{
    lemma_split_first(t);
    lemma_family_prefix_take(x, t);
    let p = first_where(t, is_sep('/'));
    let m = x.len() as int;
    assert(m >= p && p < t.len());
    if m == p {
        lemma_prefix_first(t);
        assert(proper_prefixes_spec(t)[0] == x);
    } else {
        let rest = t.skip(p + 1);
        let x2 = rest.take(m - p - 1);
        lemma_rest_no_empty(t);
        lemma_family_prefix_rest(t, x, p);
        lemma_prefix_backward(rest, x2);
        let pr = proper_prefixes_spec(rest);
        let k2 = choose|k: int| 0 <= k < pr.len() && pr[k] == x2;
        lemma_prefix_cons(t, k2);
        assert(proper_prefixes_spec(t)[k2 + 1] == x);
    }
}

/// The strict `/`-prefixes of a stroke with no empty segment are exactly the texts that, followed by `/`, begin it.
proof fn lemma_proper_prefixes(t: Seq<char>, x: Seq<char>)
    requires
        no_empty_segment(t),
    ensures
        proper_prefixes_spec(t).contains(x) <==> family_prefix(x, t),
{
    let pp = proper_prefixes_spec(t);
    if pp.contains(x) {
        let k = choose|k: int| 0 <= k < pp.len() && pp[k] == x;
        lemma_prefix_forward(t, k);
    }
    if family_prefix(x, t) {
        lemma_prefix_backward(t, x);
    }
}

/// The roots are the strict prefixes of the strokes.
proof fn lemma_roots_exactly(es: Seq<TypedV>, x: Seq<char>)
    ensures
        roots_spec(es).contains(x) <==> exists|j: int|
            0 <= j < es.len() && proper_prefixes_spec((#[trigger] es[j]).stroke).contains(x),
    decreases es.len(),
{
    if es.len() > 0 {
        let q = es.drop_last();
        lemma_roots_exactly(q, x);
        let r = roots_spec(q);
        let p = proper_prefixes_spec(es.last().stroke);
        if (r + p).contains(x) {
            let k = choose|k: int| 0 <= k < (r + p).len() && (r + p)[k] == x;
            if k < r.len() {
                assert(r[k] == x);
                let j = choose|j: int| 0 <= j < q.len() && proper_prefixes_spec((#[trigger] q[j]).stroke).contains(x);
                assert(es[j] == q[j]);
            } else {
                assert(p[k - r.len()] == x);
                assert(es[es.len() - 1] == es.last());
            }
        }
        if exists|j: int| 0 <= j < es.len() && proper_prefixes_spec((#[trigger] es[j]).stroke).contains(x) {
            let j = choose|j: int| 0 <= j < es.len() && proper_prefixes_spec((#[trigger] es[j]).stroke).contains(x);
            lemma_roots_contain(es, j, x);
        }
    }
}

/// When no stroke has an empty segment, the family roots are exactly the texts
/// that, followed by `/`, begin some stroke; so after the fix-up an entry
/// ends an outline exactly when it did before and no stroke begins with its
/// own stroke and `/`.
pub proof fn law_family_roots_by_prefix(es: Seq<TypedV>, x: Seq<char>)
    requires
        forall|j: int| 0 <= j < es.len() ==> no_empty_segment((#[trigger] es[j]).stroke),
    ensures
        roots_spec(es).contains(x) <==> exists|j: int| 0 <= j < es.len() && family_prefix(x, (#[trigger] es[j]).stroke),
{
    lemma_roots_exactly(es, x);
    assert forall|j: int| 0 <= j < es.len() implies (proper_prefixes_spec((#[trigger] es[j]).stroke).contains(x)
        <==> family_prefix(x, es[j].stroke)) by {
        lemma_proper_prefixes(es[j].stroke, x);
    }
}

/// The roots depend on the strokes alone.
proof fn lemma_roots_by_strokes(a: Seq<TypedV>, b: Seq<TypedV>)
    requires
        a.len() == b.len(),
        forall|i: int| 0 <= i < a.len() ==> (#[trigger] a[i]).stroke == b[i].stroke,
    ensures
        roots_spec(a) == roots_spec(b),
    decreases a.len(),
{
    if a.len() > 0 {
        assert forall|i: int| 0 <= i < a.drop_last().len() implies (#[trigger] a.drop_last()[i]).stroke
            == b.drop_last()[i].stroke by {
            assert(a.drop_last()[i] == a[i] && b.drop_last()[i] == b[i]);
        }
        lemma_roots_by_strokes(a.drop_last(), b.drop_last());
        assert(a.last().stroke == b.last().stroke);
    }
}

/// Every entry of `es` after the fix-up.
pub open spec fn fixed_all(es: Seq<TypedV>) -> Seq<TypedV> {
    es.map_values(|e: TypedV| fixed_entry(e, roots_spec(es)))
}

/// The fix-up keeps every stroke, so the family roots stay the same, and a
/// second fix-up changes nothing.
pub proof fn law_family_fix_idempotent(es: Seq<TypedV>)
    ensures
        roots_spec(fixed_all(es)) == roots_spec(es),
        fixed_all(fixed_all(es)) == fixed_all(es),
{
    let f = fixed_all(es);
    assert forall|i: int| 0 <= i < f.len() implies (#[trigger] f[i]).stroke == es[i].stroke by {}
    lemma_roots_by_strokes(f, es);
    assert(fixed_all(f) =~= f);
}

} // verus!
