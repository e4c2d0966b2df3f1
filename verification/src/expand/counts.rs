//! Pass A — count expansion.
//!
//! Each `@count` entry fans out to one expanded entry per count value
//! (0..=bank.max): the bank keys are merged into the stroke, the
//! `%[ sep | body %]` repeat is run `count` times, and `%d` / `%(EXPR)` are
//! resolved. Entries without `@count` pass through with only their
//! end landings resolved. Type-slots (`%t`), body-breaks (`%b`), and braces
//! are left for later passes; `%<N>` end-landings are resolved here into
//! concrete `%N` landings, since doing so requires knowing the fully
//! repeat-resolved landing count.
//!
//! Scope of `d`: total count outside a repeat, iteration index inside one.
//! The iteration index is 0-based (`ITERATION_BASE`).
use vstd::prelude::*;
use super::{expanded_view, expandeds_view, ExpandedEntry, ExpandedV};
use crate::error::ExpandError;
use crate::parse::source::{entry_view, entries_view, EntryV};
use crate::parse::{chunks_view, cv, lemma_chunks_view, lemma_cv, strs_view, Chunk, ChunkV, Entry, Expr};
use crate::stroke::bank::{
    apply_count, apply_count_error, apply_count_ok, bank_error, bank_max, bank_spec_ok, chosen_mid, chosen_right, count_bank,
};
use crate::stroke::keys::{first_where, has_num, lemma_first_where, parsed_left, parsed_mid, parsed_right, render_keys};
use crate::text::{concat3, copy_str, decimal, decimal_string, is_sep, push_decimal, push_signed, push_str, split_on};

verus! {

broadcast use vstd::seq_lib::group_seq_properties, lemma_chunks_view;

/// Base of the iteration index inside a repeat (0-based).
pub const ITERATION_BASE: u32 = 0;

/// A chunk that consumes the count.
pub open spec fn consumes_count(c: ChunkV) -> bool {
    c is Repeat || c is Dcount || c is Computed
}

/// Some top-level chunk consumes the count.
pub open spec fn uses_count_spec(cs: Seq<ChunkV>) -> bool {
    exists|i: int| 0 <= i < cs.len() && consumes_count(#[trigger] cs[i])
}

/// The value of a computed landing `a*d + b`.
pub open spec fn computed_value(e: Expr, d: u32) -> int {
    e.a * d + e.b
}

/// `%d`, `%(EXPR)` and repeats of `cs` resolved at the in-scope `d` with
/// `total` repeat iterations; `None` when a computed landing leaves `u32`.
pub open spec fn resolve_seq(cs: Seq<ChunkV>, d: u32, total: u32) -> Option<Seq<ChunkV>>
    decreases cs, 0nat, 0nat,
{
    if cs.len() == 0 {
        Some(Seq::empty())
    } else {
        match resolve_seq(cs.drop_last(), d, total) {
            None => None,
            Some(front) => match resolve_one(cs.last(), d, total) {
                None => None,
                Some(x) => Some(front + x),
            },
        }
    }
}

/// One chunk resolved at the in-scope `d`.
pub open spec fn resolve_one(c: ChunkV, d: u32, total: u32) -> Option<Seq<ChunkV>>
    decreases c, 2nat, 0nat,
{
    match c {
        ChunkV::Dcount => Some(seq![ChunkV::Lit(decimal(d as nat))]),
        ChunkV::Computed(e) => {
            let n = computed_value(e, d);
            if 0 <= n <= u32::MAX {
                Some(seq![ChunkV::Landing(n as u32)])
            } else {
                None
            }
        },
        ChunkV::Repeat(_, _) => repeat_iter(c, total, total as nat),
        _ => Some(seq![c]),
    }
}

/// The first `k` iterations of a repeat chunk: iteration `i` contributes the
/// separator (for `i > 0`) then the body, both resolved at `d = i`.
pub open spec fn repeat_iter(c: ChunkV, total: u32, k: nat) -> Option<Seq<ChunkV>>
    decreases c, 1nat, k,
{
    match c {
        ChunkV::Repeat(sep, body) => if k == 0 {
            Some(Seq::empty())
        } else {
            let i = (k - 1) as u32;
            match repeat_iter(c, total, (k - 1) as nat) {
                None => None,
                Some(prev) => {
                    let s = if k - 1 > 0 {
                        resolve_seq(sep, i, total)
                    } else {
                        Some(Seq::empty())
                    };
                    match s {
                        None => None,
                        Some(sv) => match resolve_seq(body, i, total) {
                            None => None,
                            Some(bv) => Some(prev + sv + bv),
                        },
                    }
                },
            }
        },
        _ => None,
    }
}

/// A signed integer in decimal, with a leading `-` when negative.
pub open spec fn signed_decimal(n: int) -> Seq<char> {
    if n < 0 {
        seq!['-'] + decimal((-n) as nat)
    } else {
        decimal(n as nat)
    }
}

/// The message for a computed landing that resolves to `n`, outside `u32`,
/// at `d`.
pub open spec fn computed_msg(n: int, d: u32) -> Seq<char> {
    "computed landing resolves to "@ + signed_decimal(n) + " (< 0) at d="@ + decimal(d as nat)
}

/// Why `cs` does not resolve at `d`: the first chunk that does not.
pub open spec fn resolve_seq_error(cs: Seq<ChunkV>, d: u32, total: u32) -> Seq<char>
    decreases cs, 0nat, 0nat,
{
    if cs.len() == 0 {
        Seq::empty()
    } else if resolve_seq(cs.drop_last(), d, total) is None {
        resolve_seq_error(cs.drop_last(), d, total)
    } else {
        resolve_one_error(cs.last(), d, total)
    }
}

/// Why one chunk does not resolve at `d`.
pub open spec fn resolve_one_error(c: ChunkV, d: u32, total: u32) -> Seq<char>
    decreases c, 2nat, 0nat,
{
    match c {
        ChunkV::Computed(e) => computed_msg(computed_value(e, d), d),
        ChunkV::Repeat(_, _) => repeat_iter_error(c, total, total as nat),
        _ => Seq::empty(),
    }
}

/// Why the first `k` iterations of a repeat do not resolve: the first
/// separator or body that does not.
pub open spec fn repeat_iter_error(c: ChunkV, total: u32, k: nat) -> Seq<char>
    decreases c, 1nat, k,
{
    match c {
        ChunkV::Repeat(sep, body) => if k == 0 {
            Seq::empty()
        } else {
            let i = (k - 1) as u32;
            if repeat_iter(c, total, (k - 1) as nat) is None {
                repeat_iter_error(c, total, (k - 1) as nat)
            } else if k - 1 > 0 && resolve_seq(sep, i, total) is None {
                resolve_seq_error(sep, i, total)
            } else {
                resolve_seq_error(body, i, total)
            }
        },
        _ => Seq::empty(),
    }
}

/// The largest existing landing index, if any.
pub open spec fn landing_max(cs: Seq<ChunkV>) -> Option<u32>
    decreases cs.len(),
{
    if cs.len() == 0 {
        None
    } else {
        let prev = landing_max(cs.drop_last());
        match cs.last() {
            ChunkV::Landing(n) => match prev {
                Some(m) => if m >= n {
                    Some(m)
                } else {
                    Some(n)
                },
                None => Some(n),
            },
            _ => prev,
        }
    }
}

/// The number of `%<N>` end landings.
pub open spec fn end_count(cs: Seq<ChunkV>) -> nat
    decreases cs.len(),
{
    if cs.len() == 0 {
        0
    } else {
        end_count(cs.drop_last()) + if cs.last() is EndLanding {
            1nat
        } else {
            0nat
        }
    }
}

/// Total landing slots once end landings count alongside existing landings
/// (one past the largest landing, plus one per end landing), when it fits.
pub open spec fn total_landings_spec(cs: Seq<ChunkV>) -> Option<u32> {
    let base: int = match landing_max(cs) {
        Some(m) => m + 1,
        None => 0,
    };
    let t = base + end_count(cs);
    if t <= u32::MAX {
        Some(t as u32)
    } else {
        None
    }
}

/// One chunk with an end landing `%<n>` resolved against `total` landings.
pub open spec fn end_resolve_one(c: ChunkV, total: u32) -> Option<ChunkV> {
    match c {
        ChunkV::EndLanding(n) => if total >= 1 && total - 1 >= n {
            Some(ChunkV::Landing((total - 1 - n) as u32))
        } else {
            None
        },
        _ => Some(c),
    }
}

/// Every end landing of `cs` resolved against `total` landings.
pub open spec fn end_resolve_seq(cs: Seq<ChunkV>, total: u32) -> Option<Seq<ChunkV>>
    decreases cs.len(),
{
    if cs.len() == 0 {
        Some(Seq::empty())
    } else {
        match (end_resolve_seq(cs.drop_last(), total), end_resolve_one(cs.last(), total)) {
            (Some(front), Some(x)) => Some(front.push(x)),
            _ => None,
        }
    }
}

/// `%<N>` end landings resolved: the N-th landing counted back from the last.
pub open spec fn resolve_end_spec(cs: Seq<ChunkV>) -> Option<Seq<ChunkV>> {
    match total_landings_spec(cs) {
        Some(t) => end_resolve_seq(cs, t),
        None => None,
    }
}

/// The message for a template with more end landings than `u32` counts.
pub open spec fn too_many_ends_msg() -> Seq<char> {
    "template has too many %<N> end landings to count"@
}

/// Why one end landing does not resolve against `total` landings.
pub open spec fn end_one_error(c: ChunkV, total: u32) -> Seq<char> {
    match c {
        ChunkV::EndLanding(n) => "%<"@ + decimal(n as nat) + "> resolves before enough landings exist (only "@ + decimal(
            total as nat,
        ) + " total)"@,
        _ => Seq::empty(),
    }
}

/// Why the end landings of `cs` do not resolve: the first that does not.
pub open spec fn end_resolve_error(cs: Seq<ChunkV>, total: u32) -> Seq<char>
    decreases cs.len(),
{
    if cs.len() == 0 {
        Seq::empty()
    } else if end_resolve_seq(cs.drop_last(), total) is None {
        end_resolve_error(cs.drop_last(), total)
    } else {
        end_one_error(cs.last(), total)
    }
}

/// Why the end landings of a template do not resolve.
pub open spec fn resolve_end_error(cs: Seq<ChunkV>) -> Seq<char> {
    match total_landings_spec(cs) {
        Some(t) => end_resolve_error(cs, t),
        None => too_many_ends_msg(),
    }
}

/// Stroke segments joined by `/`.
pub open spec fn join_slash(segs: Seq<Seq<char>>) -> Seq<char>
    decreases segs.len(),
{
    if segs.len() == 0 {
        Seq::empty()
    } else if segs.len() == 1 {
        segs[0]
    } else {
        join_slash(segs.drop_last()) + seq!['/'] + segs.last()
    }
}

/// Joining segments is the first segment followed, when there are more, by
/// `/` and the join of the rest.
pub proof fn lemma_join_slash_first(segs: Seq<Seq<char>>)
    requires
        segs.len() >= 1,
    ensures
        join_slash(segs) == (if segs.len() == 1 {
            segs[0]
        } else {
            segs[0] + seq!['/'] + join_slash(segs.drop_first())
        }),
    decreases segs.len(),
{
    if segs.len() == 2 {
        assert(segs.drop_last() =~= seq![segs[0]]);
        assert(segs.drop_first() =~= seq![segs[1]]);
        assert(join_slash(seq![segs[0]]) == segs[0]);
        assert(join_slash(seq![segs[1]]) == segs[1]);
    } else if segs.len() > 2 {
        let d = segs.drop_last();
        let t = segs.drop_first();
        lemma_join_slash_first(d);
        assert(d[0] == segs[0]);
        assert(d.drop_first() =~= t.drop_last());
        assert(t.last() == segs.last());
        assert(join_slash(d) == segs[0] + seq!['/'] + join_slash(t.drop_last()));
        assert(join_slash(t) == join_slash(t.drop_last()) + seq!['/'] + t.last());
        assert(join_slash(segs) == join_slash(d) + seq!['/'] + segs.last());
        assert(join_slash(segs) =~= segs[0] + seq!['/'] + join_slash(t));
    }
}

/// Splitting at `/` and joining again gives the text back.
#[verifier::spinoff_prover]
pub proof fn lemma_join_split(t: Seq<char>)
    ensures
        split_on(t, '/').len() >= 1,
        join_slash(split_on(t, '/')) == t,
    decreases t.len(),
{
    let p = first_where(t, is_sep('/'));
    lemma_first_where(t, is_sep('/'));
    if p < t.len() {
        let rest = t.skip(p + 1);
        lemma_join_split(rest);
        let segs = split_on(t, '/');
        let tail = split_on(rest, '/');
        assert(segs == seq![t.take(p)] + tail);
        assert(segs.drop_first() =~= tail);
        assert(segs[0] == t.take(p));
        lemma_join_slash_first(segs);
        assert(join_slash(segs) == t.take(p) + seq!['/'] + rest);
        assert(t =~= t.take(p) + seq!['/'] + rest);
    } else {
        assert(split_on(t, '/') == seq![t]);
        assert(join_slash(seq![t]) == t);
    }
}

/// The stroke segment with the keys encoding `d` merged in, when legal.
pub open spec fn apply_count_spec(seg: Seq<char>, spec: Seq<char>, d: u32) -> Option<Seq<char>> {
    if apply_count_ok(seg, spec, d) {
        Some(
            render_keys(
                has_num(seg),
                parsed_left(seg),
                parsed_mid(seg).union(chosen_mid(spec, d)),
                parsed_right(seg).union(chosen_right(spec, d)),
            ),
        )
    } else {
        None
    }
}

/// The expansion of entry `e` at count `d` under bank `spec`.
pub open spec fn one_count(e: EntryV, spec: Seq<char>, d: u32) -> Option<ExpandedV> {
    match apply_count_spec(e.stroke.last(), spec, d) {
        None => None,
        Some(merged) => match resolve_seq(e.template, d, d) {
            None => None,
            Some(t) => match resolve_end_spec(t) {
                None => None,
                Some(t2) => Some(
                    ExpandedV {
                        stroke: join_slash(e.stroke.drop_last().push(merged)),
                        template: t2,
                        count: Some(d),
                        source: e,
                    },
                ),
            },
        },
    }
}

/// The expansions of `e` at counts `0..k`.
pub open spec fn fan_iter(e: EntryV, spec: Seq<char>, k: nat) -> Option<Seq<ExpandedV>>
    decreases k,
{
    if k == 0 {
        Some(Seq::empty())
    } else {
        match (fan_iter(e, spec, (k - 1) as nat), one_count(e, spec, (k - 1) as u32)) {
            (Some(prev), Some(x)) => Some(prev.push(x)),
            _ => None,
        }
    }
}

/// `"raw"` followed by `tail`.
pub open spec fn quoted(raw: Seq<char>, tail: Seq<char>) -> Seq<char> {
    "\""@ + raw + "\""@ + tail
}

/// Why entry `e` does not expand at count `d`.
pub open spec fn one_count_error(e: EntryV, spec: Seq<char>, d: u32) -> Seq<char> {
    match apply_count_spec(e.stroke.last(), spec, d) {
        None => apply_count_error(e.stroke.last(), spec, d),
        Some(_) => match resolve_seq(e.template, d, d) {
            None => resolve_seq_error(e.template, d, d),
            Some(t) => resolve_end_error(t),
        },
    }
}

/// Why the expansions at counts `0..k` fail: the first count that does.
pub open spec fn fan_error(e: EntryV, spec: Seq<char>, k: nat) -> Seq<char>
    decreases k,
{
    if k == 0 {
        Seq::empty()
    } else if fan_iter(e, spec, (k - 1) as nat) is None {
        fan_error(e, spec, (k - 1) as nat)
    } else {
        one_count_error(e, spec, (k - 1) as u32)
    }
}

/// Why Pass A fails on entry `e`.
pub open spec fn expand_counts_error(e: EntryV) -> Seq<char> {
    let uses = uses_count_spec(e.template);
    match e.count {
        None => if uses {
            quoted(e.stroke_raw, " uses a count operator but has no @count"@)
        } else {
            resolve_end_error(e.template)
        },
        Some(spec) => if !uses {
            quoted(e.stroke_raw, " has @count but no count operator in its template"@)
        } else if e.stroke.len() == 0 {
            quoted(e.stroke_raw, " has an empty stroke"@)
        } else if !bank_spec_ok(spec) {
            bank_error(spec)
        } else {
            fan_error(e, spec, (bank_max(spec.len() as int) + 1) as nat)
        },
    }
}

/// Pass A over one entry: one expansion per count value of its bank, or the
/// entry itself when it has no `@count`; `None` on any misconfiguration.
pub open spec fn expand_counts_spec(e: EntryV) -> Option<Seq<ExpandedV>> {
    let uses = uses_count_spec(e.template);
    match e.count {
        None => if uses {
            None
        } else {
            match resolve_end_spec(e.template) {
                Some(t) => Some(seq![ExpandedV { stroke: e.stroke_raw, template: t, count: None, source: e }]),
                None => None,
            }
        },
        Some(spec) => if !uses || e.stroke.len() == 0 || !bank_spec_ok(spec) {
            None
        } else {
            fan_iter(e, spec, (bank_max(spec.len() as int) + 1) as nat)
        },
    }
}

/// Pass A over a whole dictionary: the expansions of every entry, in order.
pub open spec fn expand_all_spec(es: Seq<EntryV>) -> Option<Seq<ExpandedV>>
    decreases es.len(),
{
    if es.len() == 0 {
        Some(Seq::empty())
    } else {
        match (expand_all_spec(es.drop_last()), expand_counts_spec(es.last())) {
            (Some(prev), Some(x)) => Some(prev + x),
            _ => None,
        }
    }
}

/// Why Pass A fails on a dictionary: the first entry it fails on.
pub open spec fn expand_all_error(es: Seq<EntryV>) -> Seq<char>
    decreases es.len(),
{
    if es.len() == 0 {
        Seq::empty()
    } else if expand_all_spec(es.drop_last()) is None {
        expand_all_error(es.drop_last())
    } else {
        expand_counts_error(es.last())
    }
}

/// Every entry of `es` survives Pass A.
pub open spec fn all_expand(es: Seq<EntryV>) -> bool {
    forall|i: int| 0 <= i < es.len() ==> (#[trigger] expand_counts_spec(es[i])) is Some
}

/// Pass A on a whole dictionary succeeds exactly when it succeeds on every
/// entry, and then gives each entry's expansion in entry order, concatenated;
/// otherwise it fails with the error of the first entry it fails on.
pub proof fn law_expand_all(es: Seq<EntryV>)
    ensures
        expand_all_spec(es) is Some <==> all_expand(es),
        all_expand(es) ==> expand_all_spec(es)->0 == Seq::new(es.len(), |i: int| expand_counts_spec(es[i])->0).flatten(),
        forall|k: int|
            0 <= k < es.len() && (#[trigger] expand_counts_spec(es[k])) is None && (forall|j: int|
                0 <= j < k ==> (#[trigger] expand_counts_spec(es[j])) is Some) ==> expand_all_error(es)
                == expand_counts_error(es[k]),
    decreases es.len(),
{
    if es.len() > 0 {
        let q = es.drop_last();
        law_expand_all(q);
        let xs = Seq::new(es.len(), |i: int| expand_counts_spec(es[i])->0);
        let ys = Seq::new(q.len(), |i: int| expand_counts_spec(q[i])->0);
        assert(xs.drop_last() =~= ys);
        xs.lemma_flatten_and_flatten_alt_are_equivalent();
        ys.lemma_flatten_and_flatten_alt_are_equivalent();
        if all_expand(es) {
            assert forall|i: int| 0 <= i < q.len() implies (#[trigger] expand_counts_spec(q[i])) is Some by {
                assert(q[i] == es[i]);
            }
            assert(expand_counts_spec(es[es.len() - 1]) is Some);
        } else {
            let i = choose|i: int| 0 <= i < es.len() && !((#[trigger] expand_counts_spec(es[i])) is Some);
            if i < q.len() {
                assert(q[i] == es[i]);
            }
        }
        assert forall|k: int|
            0 <= k < es.len() && (#[trigger] expand_counts_spec(es[k])) is None && (forall|j: int|
                0 <= j < k ==> (#[trigger] expand_counts_spec(es[j])) is Some) implies expand_all_error(es)
                == expand_counts_error(es[k]) by {
            if k < q.len() {
                assert(q[k] == es[k]);
                assert forall|j: int| 0 <= j < k implies (#[trigger] expand_counts_spec(q[j])) is Some by {
                    assert(q[j] == es[j]);
                    assert(expand_counts_spec(es[j]) is Some);
                }
                assert(!all_expand(q));
            } else {
                assert forall|i: int| 0 <= i < q.len() implies (#[trigger] expand_counts_spec(q[i])) is Some by {
                    assert(q[i] == es[i]);
                    assert(expand_counts_spec(es[i]) is Some);
                }
            }
        }
    }
}

/// Chunk models distribute over concatenation.
pub proof fn lemma_chunks_view_add(a: Seq<Chunk>, b: Seq<Chunk>)
    ensures
        chunks_view(a + b) == chunks_view(a) + chunks_view(b),
{
    assert(chunks_view(a + b) =~= chunks_view(a) + chunks_view(b));
}

/// Append one chunk to `out`.
fn push_chunk(out: &mut Vec<Chunk>, c: Chunk)
    ensures
        cv(final(out)) == cv(old(out)).push(c@),
{
    let ghost a = out@;
    out.push(c);
    assert(out@.drop_last() == a);
}

/// Append all of `v` to `out`.
fn append_chunks(out: &mut Vec<Chunk>, v: Vec<Chunk>)
    ensures
        cv(final(out)) == cv(old(out)) + cv(&v),
{
    let mut v = v;
    let ghost a = out@;
    let ghost b = v@;
    out.append(&mut v);
    proof {
        lemma_chunks_view_add(a, b);
    }
}

/// A failing prefix fixes the sequence's error.
proof fn lemma_resolve_error_prefix(cs: Seq<ChunkV>, d: u32, total: u32, i: int)
    requires
        0 <= i <= cs.len(),
        resolve_seq(cs.take(i), d, total) is None,
    ensures
        resolve_seq(cs, d, total) is None,
        resolve_seq_error(cs, d, total) == resolve_seq_error(cs.take(i), d, total),
    decreases cs.len() - i,
{
    if i < cs.len() {
        assert(cs.take(i + 1).drop_last() == cs.take(i));
        lemma_resolve_error_prefix(cs, d, total, i + 1);
    } else {
        assert(cs.take(i) == cs);
    }
}

/// A failing prefix of iterations fixes the repeat's error.
proof fn lemma_repeat_error_prefix(c: ChunkV, total: u32, k: nat, j: nat)
    requires
        c is Repeat,
        j <= k,
        repeat_iter(c, total, j) is None,
    ensures
        repeat_iter(c, total, k) is None,
        repeat_iter_error(c, total, k) == repeat_iter_error(c, total, j),
    decreases k - j,
{
    if j < k {
        lemma_repeat_error_prefix(c, total, (k - 1) as nat, j);
    }
}

/// True when any top-level chunk consumes the count.
fn uses_count(chunks: &Vec<Chunk>) -> (b: bool)
    ensures
        b == uses_count_spec(cv(chunks)),
{
    proof {
        lemma_cv(chunks);
    }
    let mut i: usize = 0;
    while i < chunks.len()
        invariant
            i <= chunks@.len(),
            cv(chunks).len() == chunks@.len(),
            forall|j: int| 0 <= j < i ==> !consumes_count(#[trigger] cv(chunks)[j]),
        decreases chunks.len() - i,
    {
        assert(cv(chunks)[i as int] == chunks@[i as int]@);
        match &chunks[i] {
            Chunk::Repeat { .. } | Chunk::Dcount | Chunk::Computed(_) => {
                return true;
            },
            _ => {},
        }
        i = i + 1;
    }
    false
}

/// Resolve one computed landing `a*d + b` at the in-scope `d`.
fn resolve_computed(e: Expr, scope_d: u32) -> (r: Result<Chunk, ExpandError>)
    ensures
        match resolve_one(ChunkV::Computed(e), scope_d, 0) {
            Some(s) => r matches Ok(c) && seq![c@] == s,
            None => r matches Err(er) && er.spec_message() == computed_msg(computed_value(e, scope_d), scope_d),
        },
{
    let a = e.a as i64;
    let d = scope_d as i64;
    assert(-0x7fff_ffff_8000_0000 <= a * d < 0x7fff_ffff_0000_0000) by (nonlinear_arith)
        requires
            -0x8000_0000 <= a < 0x8000_0000,
            0 <= d < 0x1_0000_0000,
    ;
    let n = a * d + e.b as i64;
    if 0 <= n && n <= 0xffff_ffff {
        Ok(Chunk::Landing(n as u32))
    } else {
        let mut m = copy_str("computed landing resolves to ");
        push_signed(&mut m, n);
        push_str(&mut m, " (< 0) at d=");
        push_decimal(&mut m, scope_d as u64);
        proof {
            assert(n == computed_value(e, scope_d));
            assert(m@ =~= computed_msg(computed_value(e, scope_d), scope_d));
        }
        Err(ExpandError::new(m))
    }
}

/// Resolve `%d`, `%(EXPR)`, and repeats against the in-scope `d` (`scope_d`)
/// and the total count (`total`).
#[verifier::loop_isolation(false)]
fn resolve(chunks: &Vec<Chunk>, scope_d: u32, total: u32) -> (r: Result<Vec<Chunk>, ExpandError>)
    ensures
        match resolve_seq(cv(chunks), scope_d, total) {
            Some(s) => r matches Ok(v) && cv(&v) == s,
            None => r matches Err(e) && e.spec_message() == resolve_seq_error(cv(chunks), scope_d, total),
        },
    decreases chunks,
{
    let ghost cs = cv(chunks);
    proof {
        lemma_cv(chunks);
        assert(cs.take(0) == Seq::<ChunkV>::empty());
    }
    let mut out: Vec<Chunk> = Vec::new();
    let mut i: usize = 0;
    while i < chunks.len()
        invariant
            cs == cv(chunks),
            cs.len() == chunks@.len(),
            forall|j: int| 0 <= j < chunks@.len() ==> #[trigger] cs[j] == chunks@[j]@,
            i <= chunks@.len(),
            resolve_seq(cs.take(i as int), scope_d, total) == Some(cv(&out)),
        decreases chunks.len() - i,
    {
        let ghost c = cs[i as int];
        proof {
            assert(cs.take(i + 1).drop_last() == cs.take(i as int));
            assert(cs.take(i + 1).last() == c);
            assert(decreases_to!(chunks => chunks@[i as int]));
        }
        let ghost before = cv(&out);
        match &chunks[i] {
            Chunk::Dcount => {
                push_chunk(&mut out, Chunk::Lit(decimal_string(scope_d as u64)));
                assert(cv(&out) =~= before + seq![ChunkV::Lit(decimal(scope_d as nat))]);
            },
            Chunk::Computed(e) => {
                match resolve_computed(*e, scope_d) {
                    Ok(ch) => {
                        let ghost chv = ch@;
                        push_chunk(&mut out, ch);
                        assert(cv(&out) =~= before + seq![chv]);
                    },
                    Err(er) => {
                        proof {
                            lemma_none_propagates(cs, scope_d, total, i as int);
                        }
                        return Err(er);
                    },
                }
            },
            Chunk::Repeat { sep, body } => {
                proof {
                    assert(decreases_to!(chunks@[i as int] => *sep));
                    assert(decreases_to!(chunks@[i as int] => *body));
                }
                let mut it: u32 = 0;
                let ghost rv = cs[i as int];
                assert(rv == ChunkV::Repeat(cv(sep), cv(body)));
                while it < total
                    invariant
                        rv == ChunkV::Repeat(cv(sep), cv(body)),
                        it <= total,
                        repeat_iter(rv, total, it as nat) matches Some(p) && cv(&out) == before + p,
                    decreases total - it,
                {
                    let iter_d = ITERATION_BASE + it;
                    let ghost p0 = cv(&out);
                    if it > 0 {
                        match resolve(sep, iter_d, total) {
                            Ok(v) => {
                                append_chunks(&mut out, v);
                            },
                            Err(er) => {
                                proof {
                                    lemma_repeat_none(rv, scope_d, total, (it + 1) as nat);
                                    lemma_none_propagates(cs, scope_d, total, i as int);
                                }
                                return Err(er);
                            },
                        }
                    }
                    match resolve(body, iter_d, total) {
                        Ok(v) => {
                            append_chunks(&mut out, v);
                        },
                        Err(er) => {
                            proof {
                                lemma_repeat_none(rv, scope_d, total, (it + 1) as nat);
                                lemma_none_propagates(cs, scope_d, total, i as int);
                            }
                            return Err(er);
                        },
                    }
                    proof {
                        let p = repeat_iter(rv, total, it as nat)->0;
                        let sv = if it > 0 { resolve_seq(cv(sep), it, total)->0 } else { Seq::<ChunkV>::empty() };
                        let bv = resolve_seq(cv(body), it, total)->0;
                        assert(cv(&out) =~= p0 + sv + bv);
                        assert(before + (p + sv + bv) =~= (before + p) + sv + bv);
                    }
                    it = it + 1;
                }
                assert(cv(&out) == before + repeat_iter(rv, total, total as nat)->0);
            },
            other => {
                let cp = other.copy();
                push_chunk(&mut out, cp);
                assert(cv(&out) =~= before + seq![c]);
            },
        }
        i = i + 1;
    }
    proof {
        assert(cs.take(i as int) == cs);
    }
    Ok(out)
}

/// A failing element makes the whole sequence fail.
proof fn lemma_none_propagates(cs: Seq<ChunkV>, d: u32, total: u32, i: int)
    requires
        0 <= i < cs.len(),
        resolve_seq(cs.take(i), d, total) is Some,
        resolve_one(cs[i], d, total) is None,
    ensures
        resolve_seq(cs, d, total) is None,
        resolve_seq_error(cs, d, total) == resolve_one_error(cs[i], d, total),
{
    assert(cs.take(i + 1).drop_last() == cs.take(i));
    assert(cs.take(i + 1).last() == cs[i]);
    lemma_resolve_error_prefix(cs, d, total, i + 1);
}

/// A failing iteration makes the whole repeat fail.
proof fn lemma_repeat_none(c: ChunkV, d: u32, total: u32, j: nat)
    requires
        c is Repeat,
        j <= total,
        repeat_iter(c, total, j) is None,
    ensures
        resolve_one(c, d, total) is None,
        resolve_one_error(c, d, total) == repeat_iter_error(c, total, j),
{
    lemma_repeat_error_prefix(c, total, total as nat, j);
}


/// Total landing slots once the end landings of `chunks` are counted
/// alongside its existing landings.
fn total_landings(chunks: &Vec<Chunk>) -> (r: Result<u32, ExpandError>)
    ensures
        match total_landings_spec(cv(chunks)) {
            Some(t) => r == Ok::<u32, ExpandError>(t),
            None => r matches Err(e) && e.spec_message() == too_many_ends_msg(),
        },
{
    let ghost cs = cv(chunks);
    proof {
        lemma_cv(chunks);
        assert(cs.take(0) == Seq::<ChunkV>::empty());
    }
    let mut max: Option<u32> = None;
    let mut ends: u64 = 0;
    let mut i: usize = 0;
    while i < chunks.len()
        invariant
            cs == cv(chunks),
            cs.len() == chunks@.len(),
            forall|j: int| 0 <= j < chunks@.len() ==> #[trigger] cs[j] == chunks@[j]@,
            i <= chunks@.len(),
            max == landing_max(cs.take(i as int)),
            ends == end_count(cs.take(i as int)),
            ends <= i,
        decreases chunks.len() - i,
    {
        proof {
            assert(cs.take(i + 1).drop_last() == cs.take(i as int));
            assert(cs.take(i + 1).last() == cs[i as int]);
        }
        match &chunks[i] {
            Chunk::Landing(n) => {
                max = match max {
                    Some(m) => if m >= *n {
                        Some(m)
                    } else {
                        Some(*n)
                    },
                    None => Some(*n),
                };
            },
            Chunk::EndLanding(_) => {
                ends = ends + 1;
            },
            _ => {},
        }
        i = i + 1;
    }
    proof {
        assert(cs.take(i as int) == cs);
    }
    let base: u64 = match max {
        Some(m) => m as u64 + 1,
        None => 0,
    };
    if ends > 0xffff_ffff || base + ends > 0xffff_ffff {
        return Err(ExpandError::new(copy_str("template has too many %<N> end landings to count")));
    }
    Ok((base + ends) as u32)
}

/// A failing prefix fixes the end-landing error.
proof fn lemma_end_error_prefix(cs: Seq<ChunkV>, total: u32, i: int)
    requires
        0 <= i <= cs.len(),
        end_resolve_seq(cs.take(i), total) is None,
    ensures
        end_resolve_seq(cs, total) is None,
        end_resolve_error(cs, total) == end_resolve_error(cs.take(i), total),
    decreases cs.len() - i,
{
    if i < cs.len() {
        assert(cs.take(i + 1).drop_last() == cs.take(i));
        lemma_end_error_prefix(cs, total, i + 1);
    } else {
        assert(cs.take(i) == cs);
    }
}

/// Resolve `%<N>` end landings against the landing count already present in
/// a fully repeat/computed-resolved template.
fn resolve_end_landings(chunks: Vec<Chunk>) -> (r: Result<Vec<Chunk>, ExpandError>)
    ensures
        match resolve_end_spec(cv(&chunks)) {
            Some(s) => r matches Ok(v) && cv(&v) == s,
            None => r matches Err(e) && e.spec_message() == resolve_end_error(cv(&chunks)),
        },
{
    let total = match total_landings(&chunks) {
        Ok(t) => t,
        Err(e) => {
            return Err(e);
        },
    };
    let ghost cs = cv(&chunks);
    proof {
        lemma_cv(&chunks);
        assert(cs.take(0) == Seq::<ChunkV>::empty());
    }
    let mut out: Vec<Chunk> = Vec::new();
    let mut i: usize = 0;
    while i < chunks.len()
        invariant
            cs == cv(&chunks),
            cs.len() == chunks@.len(),
            forall|j: int| 0 <= j < chunks@.len() ==> #[trigger] cs[j] == chunks@[j]@,
            i <= chunks@.len(),
            end_resolve_seq(cs.take(i as int), total) == Some(cv(&out)),
            total_landings_spec(cs) == Some(total),
        decreases chunks.len() - i,
    {
        proof {
            assert(cs.take(i + 1).drop_last() == cs.take(i as int));
            assert(cs.take(i + 1).last() == cs[i as int]);
        }
        match &chunks[i] {
            Chunk::EndLanding(n) => {
                if total >= 1 && total - 1 >= *n {
                    push_chunk(&mut out, Chunk::Landing(total - 1 - *n));
                } else {
                    proof {
                        lemma_end_error_prefix(cs, total, i + 1);
                    }
                    let mut m = copy_str("%<");
                    push_decimal(&mut m, *n as u64);
                    push_str(&mut m, "> resolves before enough landings exist (only ");
                    push_decimal(&mut m, total as u64);
                    push_str(&mut m, " total)");
                    proof {
                        assert(m@ =~= end_one_error(cs[i as int], total));
                    }
                    return Err(ExpandError::new(m));
                }
            },
            other => {
                push_chunk(&mut out, other.copy());
            },
        }
        i = i + 1;
    }
    proof {
        assert(cs.take(i as int) == cs);
    }
    Ok(out)
}

/// `"` + `s` + `"` + `tail`, for messages.
fn quoted_msg(s: &str, tail: &str) -> (r: String)
    ensures
        r@ == quoted(s@, tail@),
{
    let mut m = concat3("\"", s, "\"");
    push_str(&mut m, tail);
    m
}

/// Pass a non-count entry through with its end landings resolved (or reject
/// a stray count operator).
fn pass_through(entry: &Entry, uses: bool) -> (r: Result<Vec<ExpandedEntry>, ExpandError>)
    requires
        entry_view(*entry).count is None,
        uses == uses_count_spec(entry_view(*entry).template),
    ensures
        match expand_counts_spec(entry_view(*entry)) {
            Some(s) => r matches Ok(v) && expandeds_view(v@) == s,
            None => r matches Err(e) && e.spec_message() == expand_counts_error(entry_view(*entry)),
        },
{
    if uses {
        return Err(ExpandError::new(quoted_msg(entry.stroke_raw.as_str(), " uses a count operator but has no @count")));
    }
    let template = match resolve_end_landings(crate::parse::copy_chunks(&entry.template)) {
        Ok(t) => t,
        Err(e) => {
            return Err(e);
        },
    };
    let mut out: Vec<ExpandedEntry> = Vec::new();
    out.push(ExpandedEntry { stroke: copy_str(entry.stroke_raw.as_str()), template, count: None, source: entry.copy() });
    assert(expandeds_view(out@) =~= seq![expanded_view(out@[0])]);
    Ok(out)
}

/// `segs[..upto]` and then `last`, joined by `/`.
fn join_front(segs: &Vec<String>, upto: usize, last: &str) -> (r: String)
    requires
        upto <= segs@.len(),
    ensures
        r@ == join_slash(strs_view(segs@).take(upto as int).push(last@)),
{
    let ghost v = strs_view(segs@);
    let mut s = String::new();
    let mut i: usize = 0;
    while i < upto
        invariant
            i <= upto <= segs@.len(),
            v == strs_view(segs@),
            i == 0 ==> s@ == Seq::<char>::empty(),
            i > 0 ==> s@ == join_slash(v.take(i as int)) + seq!['/'],
        decreases upto - i,
    {
        let ghost s0 = s@;
        push_str(&mut s, segs[i].as_str());
        s.push('/');
        proof {
            let t = v.take(i + 1);
            assert(t.drop_last() == v.take(i as int));
            assert(t.last() == segs@[i as int]@);
            if i == 0 {
                assert(join_slash(t) == segs@[0]@);
            }
        }
        i = i + 1;
    }
    let ghost s0 = s@;
    push_str(&mut s, last);
    proof {
        let t = v.take(upto as int).push(last@);
        assert(t.drop_last() == v.take(upto as int));
        if upto == 0 {
            assert(t.len() == 1);
        }
    }
    s
}

/// A failing count value makes the whole fan-out fail.
proof fn lemma_fan_none(e: EntryV, spec: Seq<char>, k: nat, j: nat)
    requires
        j <= k,
        fan_iter(e, spec, j) is None,
    ensures
        fan_iter(e, spec, k) is None,
        fan_error(e, spec, k) == fan_error(e, spec, j),
    decreases k - j,
{
    if j < k {
        lemma_fan_none(e, spec, (k - 1) as nat, j);
    }
}

/// Fan one `@count` entry out to an expansion per count value.
fn fan_out(entry: &Entry, spec: &str) -> (r: Result<Vec<ExpandedEntry>, ExpandError>)
    requires
        entry_view(*entry).count == Some(spec@),
        uses_count_spec(entry_view(*entry).template),
    ensures
        match expand_counts_spec(entry_view(*entry)) {
            Some(s) => r matches Ok(v) && expandeds_view(v@) == s,
            None => r matches Err(e) && e.spec_message() == expand_counts_error(entry_view(*entry)),
        },
{
    let ghost e = entry_view(*entry);
    let n = entry.stroke.len();
    if n == 0 {
        return Err(ExpandError::new(quoted_msg(entry.stroke_raw.as_str(), " has an empty stroke")));
    }
    let bank = match count_bank(spec) {
        Ok(b) => b,
        Err(er) => {
            return Err(ExpandError::from_stroke(er));
        },
    };
    let max = bank.max as u64;
    let last = entry.stroke[n - 1].as_str();
    proof {
        assert(e.stroke.last() == last@);
        assert(e.stroke.drop_last() == strs_view(entry.stroke@).take(n - 1));
    }
    let mut out: Vec<ExpandedEntry> = Vec::new();
    let mut d: u64 = 0;
    assert(expandeds_view(out@) == Seq::<ExpandedV>::empty());
    while d <= max
        invariant
            e == entry_view(*entry),
            e.count == Some(spec@),
            uses_count_spec(e.template),
            bank_spec_ok(spec@),
            max == bank_max(spec@.len() as int),
            d <= max + 1,
            last@ == e.stroke.last(),
            e.stroke.drop_last() == strs_view(entry.stroke@).take(n - 1),
            n == entry.stroke@.len(),
            n > 0,
            fan_iter(e, spec@, d as nat) == Some(expandeds_view(out@)),
        decreases max + 1 - d,
    {
        let dd = d as u32;
        let merged = match apply_count(last, spec, dd) {
            Ok(m) => m,
            Err(er) => {
                proof {
                    assert(one_count(e, spec@, dd) is None);
                    assert(((d + 1) as nat - 1) as u32 == dd);
                    assert(fan_iter(e, spec@, (d + 1) as nat) is None);
                    lemma_fan_none(e, spec@, (max + 1) as nat, (d + 1) as nat);
                }
                return Err(ExpandError::from_stroke(er));
            },
        };
        let stroke = join_front(&entry.stroke, n - 1, merged.as_str());
        let t = match resolve(&entry.template, dd, dd) {
            Ok(t) => t,
            Err(er) => {
                proof {
                    assert(one_count(e, spec@, dd) is None);
                    assert(((d + 1) as nat - 1) as u32 == dd);
                    assert(fan_iter(e, spec@, (d + 1) as nat) is None);
                    lemma_fan_none(e, spec@, (max + 1) as nat, (d + 1) as nat);
                }
                return Err(er);
            },
        };
        let t2 = match resolve_end_landings(t) {
            Ok(t2) => t2,
            Err(er) => {
                proof {
                    assert(one_count(e, spec@, dd) is None);
                    assert(((d + 1) as nat - 1) as u32 == dd);
                    assert(fan_iter(e, spec@, (d + 1) as nat) is None);
                    lemma_fan_none(e, spec@, (max + 1) as nat, (d + 1) as nat);
                }
                return Err(er);
            },
        };
        let x = ExpandedEntry { stroke, template: t2, count: Some(dd), source: entry.copy() };
        let ghost before = out@;
        proof {
            assert(one_count(e, spec@, dd) == Some(expanded_view(x)));
        }
        out.push(x);
        proof {
            assert(expandeds_view(out@) == expandeds_view(before).push(expanded_view(x)));
        }
        d = d + 1;
    }
    Ok(out)
}

/// Expand one entry over its count bank (or pass it through if it has no
/// `@count`).
///
/// Fails when `@count` and count operators are mismatched, the stroke is
/// empty, the bank or a count is illegal, or a computed or end landing does
/// not resolve.
pub fn expand_counts(entry: &Entry) -> (r: Result<Vec<ExpandedEntry>, ExpandError>)
    ensures
        match expand_counts_spec(entry_view(*entry)) {
            Some(s) => r matches Ok(v) && expandeds_view(v@) == s,
            None => r matches Err(e) && e.spec_message() == expand_counts_error(entry_view(*entry)),
        },
{
    let uses = uses_count(&entry.template);
    match &entry.count {
        None => pass_through(entry, uses),
        Some(spec) => {
            if !uses {
                return Err(ExpandError::new(quoted_msg(entry.stroke_raw.as_str(), " has @count but no count operator in its template")));
            }
            fan_out(entry, spec.as_str())
        },
    }
}

/// Expand a whole parsed dictionary through Pass A.
///
/// Fails on the first entry that fails to expand.
pub fn expand_all(entries: &[Entry]) -> (r: Result<Vec<ExpandedEntry>, ExpandError>)
    ensures
        match expand_all_spec(entries_view(entries@)) {
            Some(s) => r matches Ok(v) && expandeds_view(v@) == s,
            None => r matches Err(e) && e.spec_message() == expand_all_error(entries_view(entries@)),
        },
{
    let mut out: Vec<ExpandedEntry> = Vec::new();
    let mut i: usize = 0;
    assert(expandeds_view(out@) == Seq::<ExpandedV>::empty());
    while i < entries.len()
        invariant
            i <= entries@.len(),
            expand_all_spec(entries_view(entries@.take(i as int))) == Some(expandeds_view(out@)),
        decreases entries.len() - i,
    {
        proof {
            assert(entries_view(entries@.take(i + 1)).drop_last() == entries_view(entries@.take(i as int)));
            assert(entries_view(entries@.take(i + 1)).last() == entry_view(entries@[i as int]));
        }
        match expand_counts(&entries[i]) {
            Ok(mut v) => {
                let ghost a = out@;
                let ghost b = v@;
                out.append(&mut v);
                proof {
                    assert(expandeds_view(out@) =~= expandeds_view(a) + expandeds_view(b));
                }
            },
            Err(e) => {
                proof {
                    assert(entries_view(entries@).take(i + 1) =~= entries_view(entries@.take(i + 1)));
                    lemma_all_none(entries_view(entries@), (i + 1) as int);
                }
                return Err(e);
            },
        }
        i = i + 1;
    }
    assert(entries@.take(i as int) == entries@);
    Ok(out)
}

/// A failing prefix makes the whole dictionary fail.
proof fn lemma_all_none(es: Seq<EntryV>, j: int)
    requires
        0 <= j <= es.len(),
        expand_all_spec(es.take(j)) is None,
    ensures
        expand_all_spec(es) is None,
        expand_all_error(es) == expand_all_error(es.take(j)),
    decreases es.len() - j,
{
    if j < es.len() {
        assert(es.take(j + 1).drop_last() == es.take(j));
        lemma_all_none(es, j + 1);
    } else {
        assert(es.take(j) == es);
    }
}


/// All of `segs` joined by `/`.
pub fn join_all(segs: &Vec<String>) -> (r: String)
    ensures
        r@ == join_slash(strs_view(segs@)),
{
    let n = segs.len();
    if n == 0 {
        return String::new();
    }
    let r = join_front(segs, n - 1, segs[n - 1].as_str());
    proof {
        let v = strs_view(segs@);
        assert(v.take(n - 1).push(segs@[n - 1]@) == v);
    }
    r
}

} // verus!
