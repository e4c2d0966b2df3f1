//! Generate a spread of stroke sequences that exercise the programmatic
//! space — every construct's minimal fill, deep nesting past any enumerable
//! depth, multi-arity generics, fused returns, partials, and negatives. The
//! walker's answers on these pin the device dictionary to the
//! walker rather than to a table of pre-computed answers.
use vstd::prelude::*;
use super::super::{construct_view, constructs_view, inftype_view, inftypes_view, Construct, ConstructV, InfType, InfTypeV};
use crate::parse::strs_view;
use crate::stroke::bank::{merge_spec, merge_strokes};
use crate::text::copy_str;

verus! {

broadcast use vstd::seq_lib::group_seq_properties;

/// Model of the palette: concrete type strokes and the first arity-1 and
/// arity-2 generic strokes.
pub struct PaletteV {
    pub zero: Seq<Seq<char>>,
    pub one: Option<Seq<char>>,
    pub two: Option<Seq<char>>,
}

/// The strokes of the arity-`a` types, in order.
pub open spec fn strokes_of_arity(ts: Seq<InfTypeV>, a: u32) -> Seq<Seq<char>>
    decreases ts.len(),
{
    if ts.len() == 0 {
        Seq::empty()
    } else {
        let prev = strokes_of_arity(ts.drop_last(), a);
        if ts.last().arity == a {
            prev.push(ts.last().stroke)
        } else {
            prev
        }
    }
}

/// The first stroke of an arity-`a` type, if any.
pub open spec fn first_of_arity(ts: Seq<InfTypeV>, a: u32) -> Option<Seq<char>> {
    let s = strokes_of_arity(ts, a);
    if s.len() > 0 {
        Some(s[0])
    } else {
        None
    }
}

/// The palette of a type table; `None` when it has no concrete type.
pub open spec fn palette_spec(ts: Seq<InfTypeV>) -> Option<PaletteV> {
    let zero = strokes_of_arity(ts, 0);
    if zero.len() == 0 {
        None
    } else {
        Some(PaletteV { zero, one: first_of_arity(ts, 1), two: first_of_arity(ts, 2) })
    }
}

/// A concrete type stroke, cycling through the pool by index.
pub open spec fn concrete_spec(p: PaletteV, i: int) -> Seq<char> {
    p.zero[i % (p.zero.len() as int)]
}

/// Pull the type strokes the generator needs by arity.
struct Palette {
    /// Concrete (arity-0) type strokes, e.g. `number`, `string`.
    zero: Vec<String>,
    /// First arity-1 generic stroke, if the corpus has one.
    one: Option<String>,
    /// First arity-2 generic stroke, if the corpus has one.
    two: Option<String>,
}

/// The model of a palette.
spec fn palette_view(p: Palette) -> PaletteV {
    PaletteV { zero: strs_view(p.zero@), one: crate::parse::opt_view(p.one), two: crate::parse::opt_view(p.two) }
}

impl Palette {
    /// Collect the type strokes by arity, or `None` if there is no concrete
    /// type to fill an argument with.
    fn from(types: &Vec<InfType>) -> (r: Option<Palette>)
        ensures
            match palette_spec(inftypes_view(types@)) {
                Some(pv) => r matches Some(p) && palette_view(p) == pv,
                None => r is None,
            },
    {
        let ghost tv = inftypes_view(types@);
        let mut zero: Vec<String> = Vec::new();
        let mut one: Option<String> = None;
        let mut two: Option<String> = None;
        let mut i: usize = 0;
        assert(tv.take(0) == Seq::<InfTypeV>::empty());
        while i < types.len()
            invariant
                i <= types@.len(),
                tv == inftypes_view(types@),
                strs_view(zero@) == strokes_of_arity(tv.take(i as int), 0),
                crate::parse::opt_view(one) == first_of_arity(tv.take(i as int), 1),
                crate::parse::opt_view(two) == first_of_arity(tv.take(i as int), 2),
            decreases types.len() - i,
        {
            let t = &types[i];
            proof {
                assert(tv.take(i + 1).drop_last() == tv.take(i as int));
                assert(tv.take(i + 1).last() == inftype_view(*t));
                lemma_first_of_arity_push(tv.take(i as int), inftype_view(*t), 1);
                lemma_first_of_arity_push(tv.take(i as int), inftype_view(*t), 2);
            }
            if t.arity == 0 {
                let ghost b = strs_view(zero@);
                zero.push(copy_str(t.stroke.as_str()));
                assert(strs_view(zero@) == b.push(t.stroke@));
            }
            if t.arity == 1 && one.is_none() {
                one = Some(copy_str(t.stroke.as_str()));
            }
            if t.arity == 2 && two.is_none() {
                two = Some(copy_str(t.stroke.as_str()));
            }
            i = i + 1;
        }
        assert(tv.take(i as int) == tv);
        if zero.len() == 0 {
            return None;
        }
        Some(Palette { zero, one, two })
    }

    /// A concrete type stroke, cycling through the pool by index.
    fn concrete(&self, i: usize) -> (r: String)
        requires
            self.zero@.len() > 0,
        ensures
            r@ == concrete_spec(palette_view(*self), i as int),
    {
        let n = self.zero.len();
        copy_str(self.zero[i % n].as_str())
    }
}

proof fn lemma_first_of_arity_push(ts: Seq<InfTypeV>, t: InfTypeV, a: u32)
    ensures
        first_of_arity(ts.push(t), a) == (if first_of_arity(ts, a) is Some {
            first_of_arity(ts, a)
        } else if t.arity == a {
            Some(t.stroke)
        } else {
            None
        }),
{
    assert(ts.push(t).drop_last() == ts);
    let s = strokes_of_arity(ts, a);
    if s.len() > 0 && t.arity == a {
        assert(s.push(t.stroke)[0] == s[0]);
    }
}

/// The models of a list of stroke sequences.
pub open spec fn seqs_view(v: Seq<Vec<String>>) -> Seq<Seq<Seq<char>>> {
    v.map_values(|s: Vec<String>| strs_view(s@))
}

/// Base strokes followed by one concrete type per slot (the fused slot, if
/// any, merged into the shape); `None` when a fused merge is impossible.
pub open spec fn terminal_fill_spec(c: ConstructV, p: PaletteV) -> Option<Seq<Seq<char>>> {
    fill_fold(c, p, c.fill_order.len())
}

/// The terminal fill after the first `k` fill-order slots.
pub open spec fn fill_fold(c: ConstructV, p: PaletteV, k: nat) -> Option<Seq<Seq<char>>>
    decreases k,
{
    if k == 0 {
        Some(c.base)
    } else {
        match fill_fold(c, p, (k - 1) as nat) {
            None => None,
            Some(prev) => {
                let conc = concrete_spec(p, k - 1);
                if k - 1 == 0 && c.shape is Some {
                    match merge_spec(conc, c.shape->0) {
                        Some(m) => Some(prev.push(m)),
                        None => None,
                    }
                } else {
                    Some(prev.push(conc))
                }
            },
        }
    }
}

proof fn lemma_fill_none(c: ConstructV, p: PaletteV, k: nat, k2: nat)
    requires
        k <= k2,
        fill_fold(c, p, k) is None,
    ensures
        fill_fold(c, p, k2) is None,
    decreases k2 - k,
{
    if k < k2 {
        lemma_fill_none(c, p, k, (k2 - 1) as nat);
    }
}

/// A copy of a vector of strings.
fn copy_all(v: &Vec<String>) -> (r: Vec<String>)
    ensures
        strs_view(r@) == strs_view(v@),
{
    crate::parse::copy_strings(v)
}

/// Base strokes followed by one concrete type per slot.
fn terminal_fill(c: &Construct, p: &Palette) -> (r: Option<Vec<String>>)
    requires
        p.zero@.len() > 0,
    ensures
        match terminal_fill_spec(construct_view(*c), palette_view(*p)) {
            Some(s) => r matches Some(v) && strs_view(v@) == s,
            None => r is None,
        },
{
    let ghost cv0 = construct_view(*c);
    let ghost pv = palette_view(*p);
    let mut seq = copy_all(&c.base);
    let mut k: usize = 0;
    while k < c.fill_order.len()
        invariant
            k <= c.fill_order@.len(),
            p.zero@.len() > 0,
            cv0 == construct_view(*c),
            pv == palette_view(*p),
            fill_fold(cv0, pv, k as nat) == Some(strs_view(seq@)),
        decreases c.fill_order.len() - k,
    {
        let conc = p.concrete(k);
        let ghost before = strs_view(seq@);
        if k == 0 && c.shape.is_some() {
            let shape = match &c.shape {
                Some(s) => s,
                None => {
                    return None;
                },
            };
            match merge_strokes(conc.as_str(), shape.as_str()) {
                Ok(m) => {
                    let ghost mv = m@;
                    seq.push(m);
                    assert(strs_view(seq@) == before.push(mv));
                },
                Err(_) => {
                    proof {
                        lemma_fill_none(cv0, pv, (k + 1) as nat, cv0.fill_order.len());
                    }
                    return None;
                },
            }
        } else {
            let ghost cvv = conc@;
            seq.push(conc);
            assert(strs_view(seq@) == before.push(cvv));
        }
        k = k + 1;
    }
    Some(seq)
}

/// A construct's minimal terminal fill preceded by its one-short partial.
pub open spec fn construct_fills_spec(c: ConstructV, p: PaletteV) -> Seq<Seq<Seq<char>>> {
    match terminal_fill_spec(c, p) {
        None => Seq::empty(),
        Some(s) => if s.len() > c.base.len() {
            seq![s.drop_last(), s]
        } else {
            seq![s]
        },
    }
}

/// Append a construct's minimal terminal fill and its one-short partial.
fn push_construct_fills(seqs: &mut Vec<Vec<String>>, c: &Construct, p: &Palette)
    requires
        p.zero@.len() > 0,
    ensures
        seqs_view(final(seqs)@) == seqs_view(old(seqs)@) + construct_fills_spec(construct_view(*c), palette_view(*p)),
{
    let ghost before = seqs_view(seqs@);
    let seq = match terminal_fill(c, p) {
        Some(s) => s,
        None => {
            assert(before + Seq::<Seq<Seq<char>>>::empty() == before);
            return;
        },
    };
    let ghost sv = strs_view(seq@);
    if seq.len() > c.base.len() {
        let mut partial = copy_all(&seq);
        partial.pop();
        let ghost pv = strs_view(partial@);
        assert(pv == sv.drop_last());
        seqs.push(partial);
        seqs.push(seq);
        assert(seqs_view(seqs@) =~= before + seq![sv.drop_last(), sv]);
    } else {
        seqs.push(seq);
        assert(seqs_view(seqs@) =~= before + seq![sv]);
    }
}

/// Which first construct a generator hangs off: a standalone emitter (no
/// shape, one slot, nonempty base), a fused single-slot construct, or an
/// unfused construct with a nonempty base.
pub open spec fn picks(c: ConstructV, kind: int) -> bool {
    if kind == 0 {
        c.shape is None && c.slots.len() == 1 && c.base.len() > 0
    } else if kind == 1 {
        c.shape is Some && c.slots.len() == 1
    } else {
        c.shape is None && c.base.len() > 0
    }
}

/// Index of the first construct `picks` accepts (the length when none).
pub open spec fn first_pick(cs: Seq<ConstructV>, kind: int) -> int
    decreases cs.len(),
{
    if cs.len() == 0 {
        0
    } else {
        let p = first_pick(cs.drop_last(), kind);
        if p < cs.len() - 1 {
            p
        } else if picks(cs.last(), kind) {
            cs.len() - 1
        } else {
            cs.len() as int
        }
    }
}

proof fn lemma_first_pick_unique(cs: Seq<ConstructV>, kind: int, k: int)
    requires
        0 <= k <= cs.len(),
        k < cs.len() ==> picks(cs[k], kind),
        forall|j: int| 0 <= j < k ==> !picks(cs[j], kind),
    ensures
        first_pick(cs, kind) == k,
    decreases cs.len(),
{
    if cs.len() > 0 {
        if k < cs.len() - 1 {
            lemma_first_pick_unique(cs.drop_last(), kind, k);
        } else {
            lemma_first_pick_unique(cs.drop_last(), kind, cs.len() - 1);
        }
    }
}

proof fn lemma_first_pick(cs: Seq<ConstructV>, kind: int)
    ensures
        0 <= first_pick(cs, kind) <= cs.len(),
        first_pick(cs, kind) < cs.len() ==> picks(cs[first_pick(cs, kind)], kind),
    decreases cs.len(),
{
    if cs.len() > 0 {
        lemma_first_pick(cs.drop_last(), kind);
    }
}

/// The index of the first construct of a kind.
fn find_pick(constructs: &Vec<Construct>, kind: u8) -> (r: usize)
    requires
        kind <= 2,
    ensures
        r as int == first_pick(constructs_view(constructs@), kind as int),
        r <= constructs@.len(),
{
    let ghost cvs = constructs_view(constructs@);
    let mut i: usize = 0;
    while i < constructs.len()
        invariant
            i <= constructs@.len(),
            cvs == constructs_view(constructs@),
            forall|j: int| 0 <= j < i ==> !picks(cvs[j], kind as int),
        decreases constructs.len() - i,
    {
        let c = &constructs[i];
        assert(cvs[i as int] == construct_view(*c));
        let ok = if kind == 0 {
            c.shape.is_none() && c.slots.len() == 1 && c.base.len() > 0
        } else if kind == 1 {
            c.shape.is_some() && c.slots.len() == 1
        } else {
            c.shape.is_none() && c.base.len() > 0
        };
        if ok {
            proof {
                lemma_first_pick_unique(cvs, kind as int, i as int);
            }
            return i;
        }
        i = i + 1;
    }
    proof {
        lemma_first_pick_unique(cvs, kind as int, i as int);
    }
    i
}

/// `s` repeated `n` times.
pub open spec fn repeat_stroke(s: Seq<char>, n: nat) -> Seq<Seq<char>>
    decreases n,
{
    if n == 0 {
        Seq::empty()
    } else {
        repeat_stroke(s, (n - 1) as nat).push(s)
    }
}

/// The nesting sequences of depth 1..=n: the base, `one` repeated, then a
/// concrete argument.
pub open spec fn deep_seqs(base: Seq<Seq<char>>, one: Seq<char>, c0: Seq<char>, n: nat) -> Seq<Seq<Seq<char>>>
    decreases n,
{
    if n == 0 {
        Seq::empty()
    } else {
        deep_seqs(base, one, c0, (n - 1) as nat).push(base + repeat_stroke(one, n) + seq![c0])
    }
}

/// A fused construct whose single return slot is a generic: base + merged
/// generic stroke + one concrete argument.
pub open spec fn fused_generic_spec(cs: Seq<ConstructV>, p: PaletteV) -> Seq<Seq<Seq<char>>> {
    let k = first_pick(cs, 1);
    if p.one is None || k >= cs.len() || k < 0 {
        Seq::empty()
    } else {
        let c = cs[k];
        match merge_spec(p.one->0, c.shape->0) {
            None => Seq::empty(),
            Some(m) => seq![c.base + seq![m, concrete_spec(p, 0)]],
        }
    }
}

/// Deep and multi-arity sequences hung off the first standalone emitter:
/// nesting depth 1..=3, a partial, an arity-2 map, and a fused generic
/// return.
pub open spec fn deep_spec(cs: Seq<ConstructV>, p: PaletteV) -> Seq<Seq<Seq<char>>> {
    let k = first_pick(cs, 0);
    if k >= cs.len() || k < 0 {
        Seq::empty()
    } else {
        let base = cs[k].base;
        let ones = match p.one {
            Some(one) => deep_seqs(base, one, concrete_spec(p, 0), 3).push(base + seq![one, one]),
            None => Seq::empty(),
        };
        let twos = match p.two {
            Some(two) => seq![base + seq![two, concrete_spec(p, 0), concrete_spec(p, 1)]],
            None => Seq::empty(),
        };
        ones + twos + fused_generic_spec(cs, p)
    }
}

/// A vector of strings with `extra` appended.
fn extended(v: &Vec<String>, extra: &Vec<String>) -> (r: Vec<String>)
    ensures
        strs_view(r@) == strs_view(v@) + strs_view(extra@),
{
    let mut r = copy_all(v);
    let mut e = copy_all(extra);
    let ghost a = r@;
    let ghost b = e@;
    r.append(&mut e);
    assert(strs_view(r@) =~= strs_view(a) + strs_view(b));
    r
}

/// A fused construct whose single return slot is a generic: base + merged
/// generic stroke + one concrete argument.
fn push_fused_generic(seqs: &mut Vec<Vec<String>>, constructs: &Vec<Construct>, p: &Palette)
    requires
        p.zero@.len() > 0,
    ensures
        seqs_view(final(seqs)@) == seqs_view(old(seqs)@) + fused_generic_spec(constructs_view(constructs@), palette_view(*p)),
{
    let ghost before = seqs_view(seqs@);
    let k = find_pick(constructs, 1);
    let one = match &p.one {
        Some(o) => o,
        None => {
            assert(before + Seq::<Seq<Seq<char>>>::empty() == before);
            return;
        },
    };
    if k >= constructs.len() {
        assert(before + Seq::<Seq<Seq<char>>>::empty() == before);
        return;
    }
    let c = &constructs[k];
    assert(constructs_view(constructs@)[k as int] == construct_view(*c));
    proof {
        lemma_first_pick(constructs_view(constructs@), 1);
    }
    let shape = match &c.shape {
        Some(s) => s,
        None => {
            return;
        },
    };
    let merged = match merge_strokes(one.as_str(), shape.as_str()) {
        Ok(m) => m,
        Err(_) => {
            assert(before + Seq::<Seq<Seq<char>>>::empty() == before);
            return;
        },
    };
    let ghost mv = merged@;
    let mut tail: Vec<String> = Vec::new();
    tail.push(merged);
    let c0 = p.concrete(0);
    let ghost c0v = c0@;
    tail.push(c0);
    assert(strs_view(tail@) =~= seq![mv, c0v]);
    let seq = extended(&c.base, &tail);
    let ghost sv = strs_view(seq@);
    proof {
        let cv = construct_view(*c);
        assert(cv.shape == Some(shape@));
        assert(palette_view(*p).one == Some(one@));
        assert(sv =~= cv.base + seq![mv, concrete_spec(palette_view(*p), 0)]);
        assert(fused_generic_spec(constructs_view(constructs@), palette_view(*p)) == seq![sv]);
    }
    seqs.push(seq);
    assert(seqs_view(seqs@) =~= before + seq![sv]);
}

/// Append the deep and multi-arity sequences.
fn push_deep(seqs: &mut Vec<Vec<String>>, constructs: &Vec<Construct>, p: &Palette)
    requires
        p.zero@.len() > 0,
    ensures
        seqs_view(final(seqs)@) == seqs_view(old(seqs)@) + deep_spec(constructs_view(constructs@), palette_view(*p)),
{
    let ghost before = seqs_view(seqs@);
    let ghost pv = palette_view(*p);
    let k = find_pick(constructs, 0);
    if k >= constructs.len() {
        assert(before + Seq::<Seq<Seq<char>>>::empty() == before);
        return;
    }
    let emitter = &constructs[k];
    let ghost base = strs_view(emitter.base@);
    assert(constructs_view(constructs@)[k as int] == construct_view(*emitter));
    if p.one.is_none() {
        assert(before + Seq::<Seq<Seq<char>>>::empty() =~= before);
    }
    if let Some(one) = &p.one {
        let mut depth: usize = 1;
        while depth <= 3
            invariant
                1 <= depth <= 4,
                p.zero@.len() > 0,
                pv == palette_view(*p),
                pv.one == Some(one@),
                base == strs_view(emitter.base@),
                seqs_view(seqs@) == before + deep_seqs(base, one@, concrete_spec(pv, 0), (depth - 1) as nat),
            decreases 4 - depth,
        {
            let mut tail: Vec<String> = Vec::new();
            let mut q: usize = 0;
            while q < depth
                invariant
                    q <= depth,
                    strs_view(tail@) == repeat_stroke(one@, q as nat),
                decreases depth - q,
            {
                let ghost b = strs_view(tail@);
                let o = copy_str(one.as_str());
                tail.push(o);
                assert(strs_view(tail@) == b.push(one@));
                q = q + 1;
            }
            let c0 = p.concrete(0);
            let ghost b = strs_view(tail@);
            let ghost c0v = c0@;
            tail.push(c0);
            assert(strs_view(tail@) == b.push(c0v));
            let seq = extended(&emitter.base, &tail);
            let ghost sv = strs_view(seq@);
            let ghost s0 = seqs_view(seqs@);
            seqs.push(seq);
            proof {
                assert(sv =~= base + repeat_stroke(one@, depth as nat) + seq![concrete_spec(pv, 0)]);
                assert(seqs_view(seqs@) == s0.push(sv));
                assert(seqs_view(seqs@) =~= before + deep_seqs(base, one@, concrete_spec(pv, 0), depth as nat));
            }
            depth = depth + 1;
        }
        let mut tail: Vec<String> = Vec::new();
        tail.push(copy_str(one.as_str()));
        tail.push(copy_str(one.as_str()));
        let partial = extended(&emitter.base, &tail);
        let ghost pvv = strs_view(partial@);
        let ghost s3 = seqs_view(seqs@);
        seqs.push(partial);
        proof {
            assert(pvv =~= base + seq![one@, one@]);
            assert(s3 == before + deep_seqs(base, one@, concrete_spec(pv, 0), 3));
            assert(seqs_view(seqs@) =~= s3.push(pvv));
            assert(seqs_view(seqs@) =~= before + deep_seqs(base, one@, concrete_spec(pv, 0), 3).push(base + seq![one@, one@]));
        }
    }
    let ghost after_ones = seqs_view(seqs@);
    proof {
        let ones = match pv.one {
            Some(one) => deep_seqs(base, one, concrete_spec(pv, 0), 3).push(base + seq![one, one]),
            None => Seq::empty(),
        };
        assert(after_ones =~= before + ones);
    }
    if let Some(two) = &p.two {
        let mut tail: Vec<String> = Vec::new();
        tail.push(copy_str(two.as_str()));
        tail.push(p.concrete(0));
        tail.push(p.concrete(1));
        let seq = extended(&emitter.base, &tail);
        let ghost sv = strs_view(seq@);
        seqs.push(seq);
        assert(sv =~= base + seq![two@, concrete_spec(pv, 0), concrete_spec(pv, 1)]);
    }
    let ghost after_twos = seqs_view(seqs@);
    push_fused_generic(seqs, constructs, p);
    proof {
        let ones = match pv.one {
            Some(one) => deep_seqs(base, one, concrete_spec(pv, 0), 3).push(base + seq![one, one]),
            None => Seq::empty(),
        };
        let twos = match pv.two {
            Some(two) => seq![base + seq![two, concrete_spec(pv, 0), concrete_spec(pv, 1)]],
            None => Seq::empty(),
        };
        assert(after_twos =~= before + ones + twos);
        assert(seqs_view(seqs@) =~= before + (ones + twos + fused_generic_spec(constructs_view(constructs@), pv)));
    }
}

/// An unmatched base and a completed fill with a dangling extra type
/// stroke.
pub open spec fn negatives_spec(cs: Seq<ConstructV>, p: PaletteV) -> Seq<Seq<Seq<char>>> {
    let k = first_pick(cs, 2);
    let first = seq![seq!["STKPWHR"@]];
    if k >= cs.len() || k < 0 {
        first
    } else {
        match terminal_fill_spec(cs[k], p) {
            None => first,
            Some(s) => first.push(s.push(concrete_spec(p, 0))),
        }
    }
}

/// Append an unmatched base and an over-long fill.
fn push_negatives(seqs: &mut Vec<Vec<String>>, constructs: &Vec<Construct>, p: &Palette)
    requires
        p.zero@.len() > 0,
    ensures
        seqs_view(final(seqs)@) == seqs_view(old(seqs)@) + negatives_spec(constructs_view(constructs@), palette_view(*p)),
{
    let ghost before = seqs_view(seqs@);
    let mut first: Vec<String> = Vec::new();
    first.push(copy_str("STKPWHR"));
    let ghost fv = strs_view(first@);
    seqs.push(first);
    assert(fv == seq!["STKPWHR"@]);
    let k = find_pick(constructs, 2);
    if k < constructs.len() {
        let c = &constructs[k];
        assert(constructs_view(constructs@)[k as int] == construct_view(*c));
        if let Some(mut seq) = terminal_fill(c, p) {
            let ghost b = strs_view(seq@);
            let c0 = p.concrete(0);
            let ghost c0v = c0@;
            seq.push(c0);
            let ghost sv = strs_view(seq@);
            assert(sv == b.push(c0v));
            seqs.push(seq);
            assert(seqs_view(seqs@) =~= before + seq![fv, sv]);
            return;
        }
    }
    assert(seqs_view(seqs@) =~= before + seq![fv]);
}

/// Every construct's fills, in order.
pub open spec fn all_fills(cs: Seq<ConstructV>, p: PaletteV) -> Seq<Seq<Seq<char>>>
    decreases cs.len(),
{
    if cs.len() == 0 {
        Seq::empty()
    } else {
        all_fills(cs.drop_last(), p) + construct_fills_spec(cs.last(), p)
    }
}

/// All sampled sequences for the corpus: each construct's fills, the deep
/// sequences, and the negatives; empty when there is no concrete type.
pub open spec fn sample_spec(ts: Seq<InfTypeV>, cs: Seq<ConstructV>) -> Seq<Seq<Seq<char>>> {
    match palette_spec(ts) {
        None => Seq::empty(),
        Some(p) => all_fills(cs, p) + deep_spec(cs, p) + negatives_spec(cs, p),
    }
}

/// All sampled sequences for the corpus, or empty if it has no concrete
/// type.
pub fn sample_sequences(types: &Vec<InfType>, constructs: &Vec<Construct>) -> (r: Vec<Vec<String>>)
    ensures
        seqs_view(r@) == sample_spec(inftypes_view(types@), constructs_view(constructs@)),
{
    let p = match Palette::from(types) {
        Some(p) => p,
        None => {
            let r: Vec<Vec<String>> = Vec::new();
            assert(seqs_view(r@) == Seq::<Seq<Seq<char>>>::empty());
            return r;
        },
    };
    let ghost pv = palette_view(p);
    let ghost cvs = constructs_view(constructs@);
    let mut seqs: Vec<Vec<String>> = Vec::new();
    let mut i: usize = 0;
    assert(seqs_view(seqs@) == Seq::<Seq<Seq<char>>>::empty());
    assert(cvs.take(0) == Seq::<ConstructV>::empty());
    while i < constructs.len()
        invariant
            i <= constructs@.len(),
            p.zero@.len() > 0,
            pv == palette_view(p),
            cvs == constructs_view(constructs@),
            seqs_view(seqs@) == all_fills(cvs.take(i as int), pv),
        decreases constructs.len() - i,
    {
        proof {
            assert(cvs.take(i + 1).drop_last() == cvs.take(i as int));
            assert(cvs.take(i + 1).last() == construct_view(constructs@[i as int]));
        }
        push_construct_fills(&mut seqs, &constructs[i], &p);
        i = i + 1;
    }
    assert(cvs.take(i as int) == cvs);
    push_deep(&mut seqs, constructs, &p);
    push_negatives(&mut seqs, constructs, &p);
    seqs
}

} // verus!
