//! The stroke walker: replay the type-append that Pass B would have
//! enumerated, driven by an **obligation stack** rather than a table of rows.
//! Appending an arity-N type pushes N argument obligations; each later type
//! stroke discharges the innermost one. A sequence is terminal iff every
//! construct slot is filled and no obligation remains. It enumerates nothing
//! — cost is proportional to the strokes pressed, and nesting is unbounded.
use vstd::prelude::*;
use super::{construct_view, constructs_view, inftype_view, inftypes_view, is_slot, is_slot_spec, Construct, ConstructV, InfType, InfTypeV};
use crate::editor::{plain_spec, smart_spec, Behaviors};
use crate::error::ExpandError;
use crate::expand::fill::{arg_at, partial_type_spec, render_type, render_type_spec};
use crate::expand::{typed_view, TypedEntry, TypedV};
use crate::parse::source::entry_view;
use crate::parse::{chunks_view, cv, lemma_chunks_view, lemma_cv, strs_view, Chunk, ChunkV, Entry, EntryFlags};
use crate::render::render_spec;
use crate::snippet::{snippet_spec, wrap_inline_body};
use crate::stroke::bank::subtract_strokes;
use crate::stroke::keys::{has_num, parsed_left, parsed_mid, parsed_right, render_keys, stroke_ok};
use crate::text::{concat3, copy_str, push_str, str_eq};

verus! {

broadcast use vstd::seq_lib::group_seq_properties, lemma_chunks_view;

/// Index of the first type-table record with stroke `s` (the table's length
/// when there is none).
pub open spec fn lookup_idx(s: Seq<char>, types: Seq<InfTypeV>) -> int
    decreases types.len(),
{
    if types.len() == 0 {
        0
    } else {
        let p = lookup_idx(s, types.drop_last());
        if p < types.len() - 1 {
            p
        } else if types.last().stroke == s {
            types.len() - 1
        } else {
            types.len() as int
        }
    }
}

proof fn lemma_lookup_unique(s: Seq<char>, types: Seq<InfTypeV>, k: int)
    requires
        0 <= k <= types.len(),
        k < types.len() ==> types[k].stroke == s,
        forall|j: int| 0 <= j < k ==> types[j].stroke != s,
    ensures
        lookup_idx(s, types) == k,
    decreases types.len(),
{
    if types.len() > 0 {
        if k < types.len() {
            if k < types.len() - 1 {
                lemma_lookup_unique(s, types.drop_last(), k);
            } else {
                lemma_lookup_unique(s, types.drop_last(), types.len() - 1);
            }
        } else {
            lemma_lookup_unique(s, types.drop_last(), types.len() - 1);
        }
    }
}

/// The type-table record with stroke `s`, if any.
pub open spec fn lookup_spec(s: Seq<char>, types: Seq<InfTypeV>) -> Option<InfTypeV> {
    let i = lookup_idx(s, types);
    if 0 <= i < types.len() {
        Some(types[i])
    } else {
        None
    }
}

/// Find a type-table record by stroke.
fn lookup(stroke: &str, types: &Vec<InfType>) -> (r: Option<usize>)
    ensures
        match r {
            Some(i) => i as int == lookup_idx(stroke@, inftypes_view(types@)) && i < types@.len(),
            None => lookup_idx(stroke@, inftypes_view(types@)) == types@.len(),
        },
{
    let ghost tv = inftypes_view(types@);
    let mut i: usize = 0;
    while i < types.len()
        invariant
            i <= types@.len(),
            tv == inftypes_view(types@),
            forall|j: int| 0 <= j < i ==> tv[j].stroke != stroke@,
        decreases types.len() - i,
    {
        if str_eq(types[i].stroke.as_str(), stroke) {
            proof {
                lemma_lookup_unique(stroke@, tv, i as int);
            }
            return Some(i);
        }
        i = i + 1;
    }
    proof {
        lemma_lookup_unique(stroke@, tv, i as int);
    }
    None
}

/// Consume one complete (possibly nested) type from `ts` at `pos`: its text
/// (rendered, or the bracketless partial when strokes ran out
/// mid-obligation), whether it completed, and the position after it; `None`
/// when a stroke is not a type.
pub open spec fn consume_spec(ts: Seq<Seq<char>>, pos: int, types: Seq<InfTypeV>) -> Option<(Seq<char>, bool, int)>
    decreases ts.len() - pos, 1int, 0int,
{
    if pos < 0 || pos >= ts.len() {
        None
    } else {
        match lookup_spec(ts[pos], types) {
            None => None,
            Some(t) => match args_spec(t, ts, pos + 1, types, t.arity as nat) {
                None => None,
                Some((args, done, p)) => if done {
                    Some((render_type_spec(t.text, args), true, p))
                } else {
                    Some((partial_type_spec(t.text, args), false, p))
                },
            },
        }
    }
}

/// The first `k` argument obligations of `t`, discharged from `ts` starting
/// at `p0`: the argument texts, whether every one completed, and the
/// position reached. Once an argument is missing or incomplete the rest
/// stay unfilled.
pub open spec fn args_spec(t: InfTypeV, ts: Seq<Seq<char>>, p0: int, types: Seq<InfTypeV>, k: nat) -> Option<(Seq<Seq<char>>, bool, int)>
    decreases ts.len() - p0 + 1, 0int, k,
{
    if p0 < 0 || p0 > ts.len() {
        None
    } else if k == 0 {
        Some((Seq::empty(), true, p0))
    } else {
        match args_spec(t, ts, p0, types, (k - 1) as nat) {
            None => None,
            Some((args, done, p)) => if !done || p >= ts.len() {
                Some((args, false, p))
            } else if p < p0 {
                None
            } else {
                match consume_spec(ts, p, types) {
                    None => None,
                    Some((text, c, p2)) => Some((args.push(text), c, p2)),
                }
            },
        }
    }
}

proof fn lemma_args_stuck(t: InfTypeV, ts: Seq<Seq<char>>, p0: int, types: Seq<InfTypeV>, k: nat, k2: nat)
    requires
        k <= k2,
        args_spec(t, ts, p0, types, k) matches Some((_, done, _)) && !done,
    ensures
        args_spec(t, ts, p0, types, k2) == args_spec(t, ts, p0, types, k),
    decreases k2 - k,
{
    if k < k2 {
        lemma_args_stuck(t, ts, p0, types, k, (k2 - 1) as nat);
    }
}

proof fn lemma_args_none(t: InfTypeV, ts: Seq<Seq<char>>, p0: int, types: Seq<InfTypeV>, k: nat, k2: nat)
    requires
        k <= k2,
        args_spec(t, ts, p0, types, k) is None,
    ensures
        args_spec(t, ts, p0, types, k2) is None,
    decreases k2 - k,
{
    if k < k2 {
        lemma_args_none(t, ts, p0, types, k, (k2 - 1) as nat);
    }
}

proof fn lemma_consume_advances(ts: Seq<Seq<char>>, pos: int, types: Seq<InfTypeV>)
    ensures
        consume_spec(ts, pos, types) matches Some((_, _, p)) ==> pos < p <= ts.len(),
    decreases ts.len() - pos, 1int, 0int,
{
    if 0 <= pos < ts.len() {
        if let Some(t) = lookup_spec(ts[pos], types) {
            lemma_args_advances(t, ts, pos + 1, types, t.arity as nat);
        }
    }
}

proof fn lemma_args_advances(t: InfTypeV, ts: Seq<Seq<char>>, p0: int, types: Seq<InfTypeV>, k: nat)
    ensures
        args_spec(t, ts, p0, types, k) matches Some((_, _, p)) ==> p0 <= p <= ts.len(),
    decreases ts.len() - p0 + 1, 0int, k,
{
    if 0 <= p0 <= ts.len() && k > 0 {
        lemma_args_advances(t, ts, p0, types, (k - 1) as nat);
        if let Some((args, done, p)) = args_spec(t, ts, p0, types, (k - 1) as nat) {
            if done && p < ts.len() && p >= p0 {
                lemma_consume_advances(ts, p, types);
            }
        }
    }
}

/// Consume one complete (possibly nested) type from `ts` starting at `pos`.
/// `None` iff a stroke is not a valid type. An incomplete type returns its
/// partial text with `complete = false`.
fn consume_type(ts: &Vec<String>, pos: usize, types: &Vec<InfType>) -> (r: Option<(String, bool, usize)>)
    ensures
        match consume_spec(strs_view(ts@), pos as int, inftypes_view(types@)) {
            Some((text, c, p)) => r matches Some((s, c2, p2)) && s@ == text && c2 == c && p2 == p,
            None => r is None,
        },
    decreases ts@.len() - pos,
{
    let ghost tsv = strs_view(ts@);
    let ghost tv = inftypes_view(types@);
    if pos >= ts.len() {
        return None;
    }
    let idx = match lookup(ts[pos].as_str(), types) {
        Some(i) => i,
        None => {
            return None;
        },
    };
    let t = &types[idx];
    let ghost t_v = inftype_view(*t);
    proof {
        assert(tsv[pos as int] == ts@[pos as int]@);
        assert(lookup_spec(tsv[pos as int], tv) == Some(t_v));
    }
    let n = ts.len();
    let mut p = pos + 1;
    let mut args: Vec<String> = Vec::new();
    let mut k: u32 = 0;
    proof {
        assert(strs_view(args@) == Seq::<Seq<char>>::empty());
    }
    while k < t.arity
        invariant
            k <= t.arity,
            n == ts@.len(),
            pos < n,
            tsv == strs_view(ts@),
            tv == inftypes_view(types@),
            t_v == inftype_view(*t),
            lookup_spec(tsv[pos as int], tv) == Some(t_v),
            pos + 1 <= p <= n,
            args_spec(t_v, tsv, pos + 1, tv, k as nat) == Some((strs_view(args@), true, p as int)),
        decreases t.arity - k,
    {
        if p >= n {
            proof {
                lemma_args_stuck(t_v, tsv, pos + 1, tv, (k + 1) as nat, t_v.arity as nat);
            }
            return Some((partial_text(t.text.as_str(), &args), false, p));
        }
        match consume_type(ts, p, types) {
            None => {
                proof {
                    lemma_args_none(t_v, tsv, pos + 1, tv, (k + 1) as nat, t_v.arity as nat);
                }
                return None;
            },
            Some((text, complete, p2)) => {
                proof {
                    lemma_consume_advances(tsv, p as int, tv);
                }
                let ghost before = args@;
                args.push(text);
                proof {
                    assert(strs_view(args@) == strs_view(before).push(text@));
                }
                p = p2;
                if !complete {
                    proof {
                        lemma_args_stuck(t_v, tsv, pos + 1, tv, (k + 1) as nat, t_v.arity as nat);
                    }
                    return Some((partial_text(t.text.as_str(), &args), false, p));
                }
            },
        }
        k = k + 1;
    }
    Some((render_type(t.text.as_str(), &args), true, p))
}

/// The bracketless partial form: `Array`, or `Map number`.
fn partial_text(text: &str, args: &Vec<String>) -> (r: String)
    ensures
        r@ == partial_type_spec(text@, strs_view(args@)),
{
    crate::expand::fill::partial_type(text, args)
}

/// The number of type slots in `cs`.
pub open spec fn slot_count(cs: Seq<ChunkV>) -> nat
    decreases cs.len(),
{
    if cs.len() == 0 {
        0
    } else {
        slot_count(cs.drop_last()) + if is_slot_spec(cs.last()) {
            1nat
        } else {
            0nat
        }
    }
}

/// A construct template with its type slots resolved into literal chunks
/// (the k-th slot takes `slot_texts[k]`, empty when missing); every other
/// chunk kept.
pub open spec fn resolve_template_spec(cs: Seq<ChunkV>, slot_texts: Seq<Seq<char>>) -> Seq<ChunkV>
    decreases cs.len(),
{
    if cs.len() == 0 {
        Seq::empty()
    } else {
        let prev = resolve_template_spec(cs.drop_last(), slot_texts);
        if is_slot_spec(cs.last()) {
            prev.push(ChunkV::Lit(arg_at(slot_texts, slot_count(cs.drop_last()) as int)))
        } else {
            prev.push(cs.last())
        }
    }
}

/// Resolve a construct template's type slots into literal chunks (template
/// order), keeping every other chunk intact.
fn resolve_template(template: &Vec<Chunk>, slot_texts: &Vec<String>) -> (r: Vec<Chunk>)
    ensures
        cv(&r) == resolve_template_spec(cv(template), strs_view(slot_texts@)),
{
    let ghost cs = cv(template);
    let ghost st = strs_view(slot_texts@);
    proof {
        lemma_cv(template);
        assert(cs.take(0) == Seq::<ChunkV>::empty());
    }
    let mut out: Vec<Chunk> = Vec::new();
    let mut next: usize = 0;
    let mut i: usize = 0;
    while i < template.len()
        invariant
            cs == cv(template),
            st == strs_view(slot_texts@),
            cs.len() == template@.len(),
            forall|j: int| 0 <= j < template@.len() ==> #[trigger] cs[j] == template@[j]@,
            i <= template@.len(),
            next == slot_count(cs.take(i as int)),
            next <= i,
            cv(&out) == resolve_template_spec(cs.take(i as int), st),
        decreases template.len() - i,
    {
        proof {
            assert(cs.take(i + 1).drop_last() == cs.take(i as int));
            assert(cs.take(i + 1).last() == cs[i as int]);
        }
        let ghost before = out@;
        if is_slot(&template[i]) {
            let text = if next < slot_texts.len() {
                copy_str(slot_texts[next].as_str())
            } else {
                String::new()
            };
            out.push(Chunk::Lit(text));
            next = next + 1;
        } else {
            out.push(template[i].copy());
        }
        proof {
            assert(out@.drop_last() == before);
        }
        i = i + 1;
    }
    assert(cs.take(i as int) == cs);
    out
}

/// The walker's state after the first `k` fill-order slots: position
/// reached, slot texts, terminal flag, and whether the strokes ran out.
pub open spec fn walk_fold(c: ConstructV, ts: Seq<Seq<char>>, types: Seq<InfTypeV>, k: nat) -> Option<
    (int, Seq<Seq<char>>, bool, bool),
>
    decreases k,
{
    if k == 0 {
        Some((0, Seq::new(c.slots.len(), |i: int| Seq::<char>::empty()), true, false))
    } else {
        match walk_fold(c, ts, types, (k - 1) as nat) {
            None => None,
            Some((pos, texts, terminal, stopped)) => if stopped {
                Some((pos, texts, terminal, stopped))
            } else if pos >= ts.len() {
                Some((pos, texts, false, true))
            } else {
                match consume_spec(ts, pos, types) {
                    None => None,
                    Some((text, complete, p)) => {
                        let slot_idx = c.fill_order[k - 1] as int;
                        let texts2 = if slot_idx < texts.len() {
                            texts.update(slot_idx, text)
                        } else {
                            texts
                        };
                        Some((p, texts2, terminal && complete, false))
                    },
                }
            },
        }
    }
}

/// Model of a walk answer.
pub struct WalkV {
    pub template: Seq<ChunkV>,
    pub terminal: bool,
}

/// Walk the residual type strokes against one construct, filling its slots
/// in fill order; `None` iff a stroke is invalid or extra strokes remain.
pub open spec fn walk_construct_spec(c: ConstructV, ts: Seq<Seq<char>>, types: Seq<InfTypeV>) -> Option<WalkV> {
    match walk_fold(c, ts, types, c.fill_order.len()) {
        None => None,
        Some((pos, texts, terminal, _)) => if pos < ts.len() {
            None
        } else {
            Some(WalkV { template: resolve_template_spec(c.template, texts), terminal })
        },
    }
}

/// The walker's answer for one stroke sequence.
#[derive(Debug)]
pub struct WalkResult {
    /// The construct template with every type slot resolved into a literal
    /// chunk; every other chunk carried through intact, so it can be replayed
    /// through the exact render/snippet code the enumerated path uses.
    pub template: Vec<Chunk>,
    /// True iff the sequence completes the construct (no obligation
    /// remains).
    pub terminal: bool,
}

/// The model of a walk answer.
pub open spec fn walk_view(r: WalkResult) -> WalkV {
    WalkV { template: cv(&r.template), terminal: r.terminal }
}

proof fn lemma_walk_none(c: ConstructV, ts: Seq<Seq<char>>, types: Seq<InfTypeV>, k: nat, k2: nat)
    requires
        k <= k2,
        walk_fold(c, ts, types, k) is None,
    ensures
        walk_fold(c, ts, types, k2) is None,
    decreases k2 - k,
{
    if k < k2 {
        lemma_walk_none(c, ts, types, k, (k2 - 1) as nat);
    }
}

proof fn lemma_walk_fold_pos(c: ConstructV, ts: Seq<Seq<char>>, types: Seq<InfTypeV>, k: nat)
    ensures
        walk_fold(c, ts, types, k) matches Some((pos, texts, _, _)) ==> 0 <= pos <= ts.len() && texts.len() == c.slots.len(),
    decreases k,
{
    if k > 0 {
        lemma_walk_fold_pos(c, ts, types, (k - 1) as nat);
        if let Some((pos, texts, terminal, stopped)) = walk_fold(c, ts, types, (k - 1) as nat) {
            if !stopped && pos < ts.len() {
                lemma_consume_advances(ts, pos, types);
            }
        }
    }
}

/// Walk the residual type strokes against one construct, filling its slots
/// in fill order. `None` iff a stroke is invalid or extra strokes remain.
fn walk_construct(c: &Construct, ts: &Vec<String>, types: &Vec<InfType>) -> (r: Option<WalkResult>)
    ensures
        match walk_construct_spec(construct_view(*c), strs_view(ts@), inftypes_view(types@)) {
            Some(w) => r matches Some(res) && walk_view(res) == w,
            None => r is None,
        },
{
    let ghost cvw = construct_view(*c);
    let ghost tsv = strs_view(ts@);
    let ghost tv = inftypes_view(types@);
    let mut pos: usize = 0;
    let mut slot_texts: Vec<String> = Vec::new();
    let mut q: usize = 0;
    while q < c.slots.len()
        invariant
            q <= c.slots@.len(),
            strs_view(slot_texts@) == Seq::new(q as nat, |i: int| Seq::<char>::empty()),
        decreases c.slots.len() - q,
    {
        let ghost b = strs_view(slot_texts@);
        slot_texts.push(String::new());
        proof {
            assert(strs_view(slot_texts@) == b.push(Seq::<char>::empty()));
            assert(Seq::new((q + 1) as nat, |i: int| Seq::<char>::empty()) =~= Seq::new(q as nat, |i: int| Seq::<char>::empty()).push(Seq::<char>::empty()));
        }
        q = q + 1;
    }
    let mut terminal = true;
    let mut stopped = false;
    let mut k: usize = 0;
    while k < c.fill_order.len()
        invariant
            k <= c.fill_order@.len(),
            cvw == construct_view(*c),
            tsv == strs_view(ts@),
            tv == inftypes_view(types@),
            walk_fold(cvw, tsv, tv, k as nat) == Some((pos as int, strs_view(slot_texts@), terminal, stopped)),
        decreases c.fill_order.len() - k,
    {
        proof {
            lemma_walk_fold_pos(cvw, tsv, tv, k as nat);
        }
        if !stopped {
            if pos >= ts.len() {
                terminal = false;
                stopped = true;
            } else {
                match consume_type(ts, pos, types) {
                    None => {
                        proof {
                            lemma_walk_none(cvw, tsv, tv, (k + 1) as nat, cvw.fill_order.len());
                        }
                        return None;
                    },
                    Some((text, complete, p)) => {
                        pos = p;
                        if !complete {
                            terminal = false;
                        }
                        let slot_idx = c.fill_order[k];
                        if slot_idx < slot_texts.len() {
                            let ghost b = strs_view(slot_texts@);
                            let ghost tx = text@;
                            slot_texts.set(slot_idx, text);
                            proof {
                                assert(strs_view(slot_texts@) == b.update(slot_idx as int, tx));
                            }
                        }
                    },
                }
            }
        }
        k = k + 1;
    }
    if pos < ts.len() {
        return None;
    }
    let template = resolve_template(&c.template, &slot_texts);
    Some(WalkResult { template, terminal })
}

/// The residual of `m` after removing `shape`'s keys, when both parse and
/// `shape` is contained in `m`.
pub open spec fn subtract_spec(m: Seq<char>, shape: Seq<char>) -> Option<Seq<char>> {
    if stroke_ok(m) && stroke_ok(shape) && parsed_left(shape).subset_of(parsed_left(m)) && parsed_mid(
        shape,
    ).subset_of(parsed_mid(m)) && parsed_right(shape).subset_of(parsed_right(m)) && (has_num(shape)
        ==> has_num(m)) {
        Some(
            render_keys(
                has_num(m) && !has_num(shape),
                parsed_left(m).difference(parsed_left(shape)),
                parsed_mid(m).difference(parsed_mid(shape)),
                parsed_right(m).difference(parsed_right(shape)),
            ),
        )
    } else {
        None
    }
}

/// A construct's base matched against the head of `strokes`: a specificity
/// score (longer/fused = higher) and the residual type strokes.
pub open spec fn match_base_spec(c: ConstructV, strokes: Seq<Seq<char>>, types: Seq<InfTypeV>) -> Option<(int, Seq<Seq<char>>)> {
    let n = c.base.len();
    if strokes.len() < n || strokes.take(n as int) != c.base {
        None
    } else {
        let rest = strokes.skip(n as int);
        match c.shape {
            None => Some(((n * 2) as int, rest)),
            Some(shape) => if rest.len() == 0 {
                None
            } else {
                match subtract_spec(rest[0], shape) {
                    None => None,
                    Some(residual) => if lookup_spec(residual, types) is None {
                        None
                    } else {
                        Some(((n * 2 + 1) as int, seq![residual] + rest.skip(1)))
                    },
                }
            },
        }
    }
}

/// Match a construct's base against the head of `strokes`, returning a
/// specificity score (longer/fused = higher) and the residual type strokes.
fn match_base(c: &Construct, strokes: &Vec<String>, types: &Vec<InfType>) -> (r: Option<(u128, Vec<String>)>)
    ensures
        match match_base_spec(construct_view(*c), strs_view(strokes@), inftypes_view(types@)) {
            Some((score, rest)) => r matches Some((s, v)) && s == score && strs_view(v@) == rest,
            None => r is None,
        },
{
    let ghost sv = strs_view(strokes@);
    let ghost bv = strs_view(c.base@);
    let n = c.base.len();
    if strokes.len() < n {
        return None;
    }
    let mut i: usize = 0;
    while i < n
        invariant
            i <= n,
            n == c.base@.len(),
            n <= strokes@.len(),
            sv == strs_view(strokes@),
            bv == strs_view(c.base@),
            forall|j: int| 0 <= j < i ==> sv[j] == bv[j],
        decreases n - i,
    {
        if !str_eq(strokes[i].as_str(), c.base[i].as_str()) {
            proof {
                assert(sv.take(n as int)[i as int] != bv[i as int]);
            }
            return None;
        }
        i = i + 1;
    }
    assert(sv.take(n as int) =~= bv);
    let mut rest: Vec<String> = Vec::new();
    let mut j: usize = n;
    while j < strokes.len()
        invariant
            n <= j <= strokes@.len(),
            sv == strs_view(strokes@),
            strs_view(rest@) == sv.subrange(n as int, j as int),
        decreases strokes.len() - j,
    {
        let ghost b = strs_view(rest@);
        rest.push(copy_str(strokes[j].as_str()));
        proof {
            assert(strs_view(rest@) == b.push(sv[j as int]));
            assert(sv.subrange(n as int, j + 1) == sv.subrange(n as int, j as int).push(sv[j as int]));
        }
        j = j + 1;
    }
    assert(sv.subrange(n as int, j as int) == sv.skip(n as int));
    match &c.shape {
        None => Some((n as u128 * 2, rest)),
        Some(shape) => {
            if rest.len() == 0 {
                return None;
            }
            let residual = match subtract_strokes(rest[0].as_str(), shape.as_str()) {
                Ok(Some(r)) => r,
                _ => {
                    return None;
                },
            };
            if lookup(residual.as_str(), types).is_none() {
                return None;
            }
            let ghost resv = residual@;
            let mut ts: Vec<String> = Vec::new();
            ts.push(residual);
            let mut q: usize = 1;
            let ghost rv = strs_view(rest@);
            assert(strs_view(ts@) == seq![resv] + rv.subrange(1, 1));
            while q < rest.len()
                invariant
                    1 <= q <= rest@.len(),
                    rv == strs_view(rest@),
                    strs_view(ts@) == seq![resv] + rv.subrange(1, q as int),
                decreases rest.len() - q,
            {
                let ghost b = strs_view(ts@);
                ts.push(copy_str(rest[q].as_str()));
                proof {
                    assert(strs_view(ts@) == b.push(rv[q as int]));
                    assert(rv.subrange(1, q + 1) == rv.subrange(1, q as int).push(rv[q as int]));
                }
                q = q + 1;
            }
            assert(rv.subrange(1, q as int) == rv.skip(1));
            Some((n as u128 * 2 + 1, ts))
        },
    }
}

/// The construct the walker picks: the first with the highest score among
/// those whose base matches, with its residual strokes.
pub open spec fn best_spec(strokes: Seq<Seq<char>>, types: Seq<InfTypeV>, cs: Seq<ConstructV>) -> Option<(int, Seq<Seq<char>>, int)>
    decreases cs.len(),
{
    if cs.len() == 0 {
        None
    } else {
        let prev = best_spec(strokes, types, cs.drop_last());
        match match_base_spec(cs.last(), strokes, types) {
            None => prev,
            Some((score, ts)) => match prev {
                Some((s0, _, _)) => if score > s0 {
                    Some((score, ts, cs.len() - 1))
                } else {
                    prev
                },
                None => Some((score, ts, cs.len() - 1)),
            },
        }
    }
}

/// The walker's answer: the best-matching construct walked over
/// its residual strokes; `None` when no construct/type rule matches.
pub open spec fn walk_spec(strokes: Seq<Seq<char>>, types: Seq<InfTypeV>, cs: Seq<ConstructV>) -> Option<WalkV> {
    match best_spec(strokes, types, cs) {
        None => None,
        Some((_, ts, i)) => if 0 <= i < cs.len() {
            walk_construct_spec(cs[i], ts, types)
        } else {
            None
        },
    }
}

proof fn lemma_best_index(strokes: Seq<Seq<char>>, types: Seq<InfTypeV>, cs: Seq<ConstructV>)
    ensures
        best_spec(strokes, types, cs) matches Some((_, _, i)) ==> 0 <= i < cs.len(),
    decreases cs.len(),
{
    if cs.len() > 0 {
        lemma_best_index(strokes, types, cs.drop_last());
    }
}

/// The stroke walker: given a stroke sequence and the two tables, return
/// the resolved template and terminal flag, or `None` when no construct/type
/// rule matches. Enumerates nothing.
pub fn walk(strokes: &Vec<String>, types: &Vec<InfType>, constructs: &Vec<Construct>) -> (r: Option<WalkResult>)
    ensures
        match walk_spec(strs_view(strokes@), inftypes_view(types@), constructs_view(constructs@)) {
            Some(w) => r matches Some(res) && walk_view(res) == w,
            None => r is None,
        },
{
    let ghost sv = strs_view(strokes@);
    let ghost tv = inftypes_view(types@);
    let ghost cvs = constructs_view(constructs@);
    let mut best: Option<(u128, Vec<String>, usize)> = None;
    let mut i: usize = 0;
    assert(cvs.take(0) == Seq::<ConstructV>::empty());
    while i < constructs.len()
        invariant
            i <= constructs@.len(),
            sv == strs_view(strokes@),
            tv == inftypes_view(types@),
            cvs == constructs_view(constructs@),
            match best_spec(sv, tv, cvs.take(i as int)) {
                None => best is None,
                Some((s, ts, k)) => best matches Some((s2, v, k2)) && s2 == s && strs_view(v@) == ts && k2 == k,
            },
        decreases constructs.len() - i,
    {
        proof {
            assert(cvs.take(i + 1).drop_last() == cvs.take(i as int));
            assert(cvs.take(i + 1).last() == construct_view(constructs@[i as int]));
        }
        if let Some((score, ts)) = match_base(&constructs[i], strokes, types) {
            let better = match &best {
                Some((s0, _, _)) => score > *s0,
                None => true,
            };
            if better {
                best = Some((score, ts, i));
            }
        }
        i = i + 1;
    }
    assert(cvs.take(i as int) == cvs);
    proof {
        lemma_best_index(sv, tv, cvs);
    }
    match best {
        None => None,
        Some((_, ts, k)) => {
            assert(cvs[k as int] == construct_view(constructs@[k as int]));
            walk_construct(&constructs[k], &ts, types)
        },
    }
}

/// Which rendering pipeline [`render_walk`] replays a resolved template
/// through: the two Plover dictionaries and the nvim inline snippet body.
#[derive(Debug, Clone, Copy, PartialEq, Eq, Structural)]
pub enum Profile {
    /// The dumb-editor Plover dictionary value.
    Plain,
    /// The auto-close/type-over Plover dictionary value.
    Smart,
    /// The unified inline nvim snippet value (sentinel-wrapped body, or a
    /// plain glued partial when non-terminal).
    Nvim,
}

/// The synthetic entry a walk answer renders as: no stroke, no directives,
/// never one-liner.
pub open spec fn synth_spec(w: WalkV) -> TypedV {
    TypedV {
        stroke: Seq::empty(),
        template: w.template,
        terminal: w.terminal,
        one_liner: false,
        count: None,
        type_label: None,
        source: crate::parse::source::EntryV {
            stroke: Seq::empty(),
            stroke_raw: Seq::empty(),
            template: Seq::empty(),
            raw: Seq::empty(),
            count: None,
            arity: None,
            flags: EntryFlags::spec_none(),
            line: 0,
        },
    }
}

/// Wrap a resolved walk template in a synthetic [`TypedEntry`] so it can be
/// handed to the exact render/snippet code the enumerated path uses.
fn synth_entry(r: &WalkResult) -> (e: TypedEntry)
    ensures
        typed_view(e) == synth_spec(walk_view(*r)),
{
    let e = TypedEntry {
        stroke: String::new(),
        template: crate::parse::copy_chunks(&r.template),
        terminal: r.terminal,
        one_liner: false,
        count: None,
        type_label: None,
        source: Entry {
            stroke: Vec::new(),
            stroke_raw: String::new(),
            template: Vec::new(),
            raw: String::new(),
            count: None,
            arity: None,
            flags: EntryFlags::none(),
            line: 0,
        },
    };
    proof {
        assert(strs_view(e.source.stroke@) == Seq::<Seq<char>>::empty());
        assert(chunks_view(e.source.template@) == Seq::<ChunkV>::empty());
    }
    e
}

/// The value a walk answer renders to under a profile.
pub open spec fn render_walk_spec(w: WalkV, profile: Profile) -> Option<Seq<char>> {
    let e = synth_spec(w);
    match profile {
        Profile::Plain => match render_spec(e, plain_spec()) {
            Some(kv) => Some(kv.1),
            None => None,
        },
        Profile::Smart => match render_spec(e, smart_spec()) {
            Some(kv) => Some(kv.1),
            None => None,
        },
        Profile::Nvim => match snippet_spec(e) {
            Some((_, body, terminal)) => Some(
                if terminal {
                    "{^}"@ + crate::snippet::SENTINEL_OPEN@ + body + crate::snippet::SENTINEL_CLOSE@ + "{^}"@
                } else {
                    "{^}"@ + body + "{^}"@
                },
            ),
            None => None,
        },
    }
}

/// Why a walk result does not render: the underlying renderer's message.
pub open spec fn render_walk_error(w: WalkV, profile: Profile) -> Seq<char> {
    let e = synth_spec(w);
    match profile {
        Profile::Plain => crate::render::content_error(e, plain_spec()),
        Profile::Smart => crate::render::content_error(e, smart_spec()),
        Profile::Nvim => crate::snippet::snippet_error(e.template),
    }
}

/// Render a walk result through one of the three static-path renderers.
///
/// Wraps its resolved template in a synthetic entry and delegates to the
/// exact code the enumerated dictionary renders through. Fails when the
/// underlying renderer fails.
pub fn render_walk(r: &WalkResult, profile: Profile) -> (res: Result<String, ExpandError>)
    ensures
        match render_walk_spec(walk_view(*r), profile) {
            Some(s) => res matches Ok(v) && v@ == s,
            None => res matches Err(e) && e.spec_message() == render_walk_error(walk_view(*r), profile),
        },
{
    let entry = synth_entry(r);
    match profile {
        Profile::Plain => match crate::render::plain::render_plain(&entry) {
            Ok(kv) => Ok(kv.1),
            Err(e) => Err(ExpandError::new(copy_str(e.message()))),
        },
        Profile::Smart => match crate::render::smart::render_smart(&entry) {
            Ok(kv) => Ok(kv.1),
            Err(e) => Err(ExpandError::new(copy_str(e.message()))),
        },
        Profile::Nvim => match crate::snippet::render_snippet(&entry) {
            Ok(s) => {
                if s.terminal {
                    Ok(wrap_inline_body(s.body.as_str()))
                } else {
                    Ok(concat3("{^}", s.body.as_str(), "{^}"))
                }
            },
            Err(e) => Err(ExpandError::new(copy_str(e.message()))),
        },
    }
}

/// Surface text of a non-slot chunk (landings and body breaks carry none).
pub open spec fn chunk_surface_spec(c: ChunkV) -> Seq<char> {
    match c {
        ChunkV::Lit(s) => s,
        ChunkV::Brace(open) => if open {
            seq!['{']
        } else {
            seq!['}']
        },
        ChunkV::Newline => seq!['\n'],
        ChunkV::Tab => seq!['\t'],
        _ => Seq::empty(),
    }
}

/// A template's surface text split at its type slots: `n` slots yield
/// `n + 1` fragments.
pub open spec fn fragments_spec(cs: Seq<ChunkV>) -> Seq<Seq<char>>
    decreases cs.len(),
{
    if cs.len() == 0 {
        seq![Seq::empty()]
    } else {
        let prev = fragments_spec(cs.drop_last());
        if is_slot_spec(cs.last()) {
            prev.push(Seq::empty())
        } else {
            prev.update(prev.len() - 1, prev.last() + chunk_surface_spec(cs.last()))
        }
    }
}

/// Append the surface text of a non-slot chunk.
fn push_surface(out: &mut String, c: &Chunk)
    ensures
        final(out)@ == old(out)@ + chunk_surface_spec(c@),
{
    match c {
        Chunk::Lit(s) => push_str(out, s.as_str()),
        Chunk::Brace { open } => out.push(if *open { '{' } else { '}' }),
        Chunk::Newline => out.push('\n'),
        Chunk::Tab => out.push('\t'),
        _ => {
            assert(old(out)@ + Seq::<char>::empty() == old(out)@);
        },
    }
}

/// Split a template's surface text at its type slots (template order).
///
/// `n` slots yield `n + 1` fragments interleaved with the slot texts.
pub fn template_fragments(template: &Vec<Chunk>) -> (r: Vec<String>)
    ensures
        strs_view(r@) == fragments_spec(cv(template)),
{
    let ghost cs = cv(template);
    proof {
        lemma_cv(template);
        assert(cs.take(0) == Seq::<ChunkV>::empty());
    }
    let mut frags: Vec<String> = Vec::new();
    frags.push(String::new());
    assert(strs_view(frags@) == seq![Seq::<char>::empty()]);
    let mut i: usize = 0;
    while i < template.len()
        invariant
            cs == cv(template),
            cs.len() == template@.len(),
            forall|j: int| 0 <= j < template@.len() ==> #[trigger] cs[j] == template@[j]@,
            i <= template@.len(),
            frags@.len() >= 1,
            strs_view(frags@) == fragments_spec(cs.take(i as int)),
        decreases template.len() - i,
    {
        proof {
            assert(cs.take(i + 1).drop_last() == cs.take(i as int));
            assert(cs.take(i + 1).last() == cs[i as int]);
        }
        let ghost before = strs_view(frags@);
        if is_slot(&template[i]) {
            frags.push(String::new());
            assert(strs_view(frags@) == before.push(Seq::<char>::empty()));
        } else {
            let n = frags.len();
            let mut last = copy_str(frags[n - 1].as_str());
            push_surface(&mut last, &template[i]);
            let ghost lv = last@;
            frags.set(n - 1, last);
            assert(strs_view(frags@) == before.update(n - 1, lv));
        }
        i = i + 1;
    }
    assert(cs.take(i as int) == cs);
    frags
}

/// The text for slot `j`: its supplied text, or empty when unfilled.
pub open spec fn text_at(texts: Seq<Seq<char>>, j: int) -> Seq<char> {
    if 0 <= j < texts.len() {
        texts[j]
    } else {
        Seq::empty()
    }
}

/// The first fragment, then for each of the first `n` slots its text
/// followed by the fragment after it.
pub open spec fn filled_upto(frags: Seq<Seq<char>>, texts: Seq<Seq<char>>, n: nat) -> Seq<char>
    decreases n,
{
    if n == 0 {
        if frags.len() > 0 {
            frags[0]
        } else {
            Seq::empty()
        }
    } else {
        filled_upto(frags, texts, (n - 1) as nat) + text_at(texts, n - 1) + if (n as int) < frags.len() {
            frags[n as int]
        } else {
            Seq::empty()
        }
    }
}

/// The number of slots the fill walks: every supplied text and every slot
/// between fragments.
pub open spec fn fill_count(frags: Seq<Seq<char>>, texts: Seq<Seq<char>>) -> nat {
    if frags.len() > texts.len() + 1 {
        (frags.len() - 1) as nat
    } else {
        texts.len()
    }
}

/// The text of a template with its slots filled: the first fragment, then
/// each slot's text (empty when unfilled) followed by the fragment after it.
pub open spec fn filled_spec(frags: Seq<Seq<char>>, texts: Seq<Seq<char>>) -> Seq<char> {
    filled_upto(frags, texts, fill_count(frags, texts))
}

/// Render a template with its type slots filled (`slot_texts` in template
/// order; unfilled slots are empty).
pub fn render_filled(template: &Vec<Chunk>, slot_texts: &Vec<String>) -> (r: String)
    ensures
        r@ == filled_spec(fragments_spec(cv(template)), strs_view(slot_texts@)),
{
    let frags = template_fragments(template);
    let ghost fv = strs_view(frags@);
    let ghost tv = strs_view(slot_texts@);
    let mut out = if frags.len() > 0 {
        copy_str(frags[0].as_str())
    } else {
        String::new()
    };
    let n: usize = if frags.len() > 0 && frags.len() - 1 > slot_texts.len() {
        frags.len() - 1
    } else {
        slot_texts.len()
    };
    assert(n == fill_count(fv, tv));
    let mut i: usize = 0;
    while i < n
        invariant
            i <= n,
            n == fill_count(fv, tv),
            fv == strs_view(frags@),
            tv == strs_view(slot_texts@),
            out@ == filled_upto(fv, tv, i as nat),
        decreases n - i,
    {
        if i < slot_texts.len() {
            push_str(&mut out, slot_texts[i].as_str());
        }
        if i + 1 < frags.len() {
            push_str(&mut out, frags[i + 1].as_str());
        }
        proof {
            assert(out@ =~= filled_upto(fv, tv, (i + 1) as nat));
        }
        i = i + 1;
    }
    out
}

/// One unit of a construct template, in template order.
#[derive(Debug, PartialEq, Eq)]
pub enum TemplateOp {
    /// Literal surface text (coalesced `Lit`/`Brace`/`Tab` characters).
    Text(String),
    /// A type slot (`%t` or `%T`), filled at walk time (template order).
    Slot,
    /// An editor landing / LSP tabstop position.
    Landing(u32),
    /// A hard line break (`Newline` or `%b`; the programmatic path never runs
    /// one-liner, so `%b` always breaks).
    Newline,
}

/// Model of a template op.
pub enum OpV {
    Text(Seq<char>),
    Slot,
    Landing(u32),
    Newline,
}

/// The model of a template op.
pub open spec fn op_view(o: TemplateOp) -> OpV {
    match o {
        TemplateOp::Text(s) => OpV::Text(s@),
        TemplateOp::Slot => OpV::Slot,
        TemplateOp::Landing(n) => OpV::Landing(n),
        TemplateOp::Newline => OpV::Newline,
    }
}

/// The models of an op list.
pub open spec fn ops_view(v: Seq<TemplateOp>) -> Seq<OpV> {
    v.map_values(|o: TemplateOp| op_view(o))
}

/// Surface text appended, coalescing into a trailing text op.
pub open spec fn push_text_spec(ops: Seq<OpV>, s: Seq<char>) -> Seq<OpV> {
    if ops.len() > 0 && ops.last() is Text {
        ops.update(ops.len() - 1, OpV::Text(ops.last()->Text_0 + s))
    } else {
        ops.push(OpV::Text(s))
    }
}

/// The op list of a construct template: adjacent surface text coalesces; a
/// type slot, a landing, and a hard newline each break the run; chunks that
/// never survive Pass A are skipped.
pub open spec fn ops_spec(cs: Seq<ChunkV>) -> Seq<OpV>
    decreases cs.len(),
{
    if cs.len() == 0 {
        Seq::empty()
    } else {
        let prev = ops_spec(cs.drop_last());
        let c = cs.last();
        if is_slot_spec(c) {
            prev.push(OpV::Slot)
        } else {
            match c {
                ChunkV::Landing(n) => prev.push(OpV::Landing(n)),
                ChunkV::Newline => prev.push(OpV::Newline),
                ChunkV::BodyBreak => prev.push(OpV::Newline),
                ChunkV::Lit(s) => push_text_spec(prev, s),
                ChunkV::Brace(open) => push_text_spec(prev, if open { seq!['{'] } else { seq!['}'] }),
                ChunkV::Tab => push_text_spec(prev, seq!['\t']),
                _ => prev,
            }
        }
    }
}

/// Append surface text, coalescing into the last `Text` op.
fn push_text(ops: &mut Vec<TemplateOp>, s: &str)
    ensures
        ops_view(final(ops)@) == push_text_spec(ops_view(old(ops)@), s@),
{
    let ghost before = ops_view(ops@);
    let n = ops.len();
    if n > 0 {
        if let TemplateOp::Text(last) = &ops[n - 1] {
            let mut t = copy_str(last.as_str());
            push_str(&mut t, s);
            let ghost tv = t@;
            ops.set(n - 1, TemplateOp::Text(t));
            assert(ops_view(ops@) == before.update(n - 1, OpV::Text(tv)));
            return;
        }
    }
    ops.push(TemplateOp::Text(copy_str(s)));
    assert(ops_view(ops@) == before.push(OpV::Text(s@)));
}

/// Lower a construct template (slots intact) to the op list the device
/// header stores. `n` slots yield `n` `Slot` ops in template order.
pub fn template_ops(template: &Vec<Chunk>) -> (r: Vec<TemplateOp>)
    ensures
        ops_view(r@) == ops_spec(cv(template)),
{
    let ghost cs = cv(template);
    proof {
        lemma_cv(template);
        assert(cs.take(0) == Seq::<ChunkV>::empty());
    }
    let mut ops: Vec<TemplateOp> = Vec::new();
    assert(ops_view(ops@) == Seq::<OpV>::empty());
    let mut i: usize = 0;
    while i < template.len()
        invariant
            cs == cv(template),
            cs.len() == template@.len(),
            forall|j: int| 0 <= j < template@.len() ==> #[trigger] cs[j] == template@[j]@,
            i <= template@.len(),
            ops_view(ops@) == ops_spec(cs.take(i as int)),
        decreases template.len() - i,
    {
        proof {
            assert(cs.take(i + 1).drop_last() == cs.take(i as int));
            assert(cs.take(i + 1).last() == cs[i as int]);
        }
        let ghost before = ops_view(ops@);
        if is_slot(&template[i]) {
            ops.push(TemplateOp::Slot);
            assert(ops_view(ops@) == before.push(OpV::Slot));
        } else {
            match &template[i] {
                Chunk::Landing(n) => {
                    ops.push(TemplateOp::Landing(*n));
                    assert(ops_view(ops@) == before.push(OpV::Landing(*n)));
                },
                Chunk::Newline | Chunk::BodyBreak => {
                    ops.push(TemplateOp::Newline);
                    assert(ops_view(ops@) == before.push(OpV::Newline));
                },
                Chunk::Lit(s) => {
                    push_text(&mut ops, s.as_str());
                    assert(cs[i as int] == ChunkV::Lit(s@));
                },
                Chunk::Brace { open } => {
                    if *open {
                        proof {
                            reveal_strlit("{");
                        }
                        push_text(&mut ops, "{");
                        assert("{"@ == seq!['{']);
                    } else {
                        proof {
                            reveal_strlit("}");
                        }
                        push_text(&mut ops, "}");
                        assert("}"@ == seq!['}']);
                    }
                },
                Chunk::Tab => {
                    proof {
                        reveal_strlit("\t");
                    }
                    push_text(&mut ops, "\t");
                    assert("\t"@ == seq!['\t']);
                },
                _ => {},
            }
        }
        i = i + 1;
    }
    assert(cs.take(i as int) == cs);
    ops
}

} // verus!
