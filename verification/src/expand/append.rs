//! Pass B — type-append.
//!
//! A construct's single `%t` is filled by appending type strokes. Arity-0
//! types terminate immediately; an arity-N generic stays NON-TERMINAL until N
//! args are appended. Non-terminal steps accumulate the type as bracketless
//! space-joined tokens ("Map", "Map string"); the terminal step renders the
//! real brackets ("Map<string, number>"). Nesting (a generic as a generic's
//! arg) is out of scope, so generic args are drawn from a restricted arity-0
//! pool.
use vstd::prelude::*;
use super::counts::{join_all, join_slash};
use super::fill::{
    fill_spec, fill_template, filling_view, fillings, fillings_spec, fillings_view, pair_count, render_type,
    render_type_spec, with_types, with_types_spec, Filling, FillingV,
};
use super::types::{typedef_view, typedefs_view, TypeDef, TypeDefV, TypeOptions};
use super::{expanded_view, expandeds_view, typed_view, typeds_view, ExpandedEntry, ExpandedV, TypedEntry, TypedV};
use crate::error::ExpandError;
use crate::parse::source::EntryV;
use crate::parse::{cv, lemma_cv, strs_view, Chunk, ChunkV, FUSE};
use crate::stroke::bank::{merge_error_msg, merge_spec, merge_strokes};
use crate::text::{copy_str, push_str, split_on, split_string};

verus! {

broadcast use vstd::seq_lib::group_seq_properties;

/// A typed step built from a count-expanded entry.
pub open spec fn typed_spec(e: ExpandedV, stroke: Seq<char>, template: Seq<ChunkV>, terminal: bool, label: Option<Seq<char>>) -> TypedV {
    TypedV { stroke, template, terminal, one_liner: false, count: e.count, type_label: label, source: e.source }
}

/// Build a [`TypedEntry`] step from a count-expanded entry.
fn typed(entry: &ExpandedEntry, stroke: String, template: Vec<Chunk>, terminal: bool, type_label: Option<String>) -> (r: TypedEntry)
    ensures
        typed_view(r) == typed_spec(
            expanded_view(*entry),
            stroke@,
            cv(&template),
            terminal,
            crate::parse::opt_view(type_label),
        ),
{
    TypedEntry { stroke, template, terminal, one_liner: false, count: entry.count, type_label, source: entry.source.copy() }
}

/// Indices of every `%t` slot in a template.
pub open spec fn type_slots_spec(cs: Seq<ChunkV>) -> Seq<usize>
    decreases cs.len(),
{
    if cs.len() == 0 {
        Seq::empty()
    } else {
        let prev = type_slots_spec(cs.drop_last());
        if cs.last() is TypeSlot {
            prev.push((cs.len() - 1) as usize)
        } else {
            prev
        }
    }
}

/// Indices of every `%t` slot in a template.
fn type_slots(template: &Vec<Chunk>) -> (r: Vec<usize>)
    ensures
        r@ == type_slots_spec(cv(template)),
{
    let ghost cs = cv(template);
    proof {
        lemma_cv(template);
        assert(cs.take(0) == Seq::<ChunkV>::empty());
    }
    let mut out: Vec<usize> = Vec::new();
    let mut i: usize = 0;
    while i < template.len()
        invariant
            cs == cv(template),
            cs.len() == template@.len(),
            forall|j: int| 0 <= j < template@.len() ==> #[trigger] cs[j] == template@[j]@,
            i <= template@.len(),
            out@ == type_slots_spec(cs.take(i as int)),
        decreases template.len() - i,
    {
        proof {
            assert(cs.take(i + 1).drop_last() == cs.take(i as int));
            assert(cs.take(i + 1).last() == cs[i as int]);
        }
        if let Chunk::TypeSlot = &template[i] {
            out.push(i);
        }
        i = i + 1;
    }
    assert(cs.take(i as int) == cs);
    out
}

/// Indices as integers.
pub open spec fn ints(v: Seq<usize>) -> Seq<int> {
    v.map_values(|x: usize| x as int)
}

/// The rendered texts of the chosen pool types, one per slot (empty past
/// the choices).
pub open spec fn multi_texts(slots: Seq<usize>, pool: Seq<TypeDefV>, chosen: Seq<int>) -> Seq<Seq<char>> {
    Seq::new(
        slots.len(),
        |i: int|
            if i < chosen.len() {
                render_type_spec(pool[chosen[i]].text, Seq::empty())
            } else {
                Seq::empty()
            },
    )
}

/// The multi-slot entry for one non-empty prefix of pool choices.
pub open spec fn emit_multi_spec(e: ExpandedV, slots: Seq<usize>, pool: Seq<TypeDefV>, chosen: Seq<int>) -> TypedV {
    let texts = multi_texts(slots, pool, chosen);
    let suffix = Seq::new(chosen.len(), |i: int| pool[chosen[i]].stroke);
    typed_spec(
        e,
        e.stroke + seq!['/'] + join_slash(suffix),
        with_types_spec(e.template, slots, texts, pair_count(slots, texts)),
        chosen.len() == slots.len(),
        Some(pool[chosen.last()].text),
    )
}

/// Every non-empty extension of `chosen` (up to one choice per slot), in
/// depth-first pool order.
pub open spec fn rec_multi_spec(e: ExpandedV, slots: Seq<usize>, pool: Seq<TypeDefV>, chosen: Seq<int>) -> Seq<TypedV>
    decreases slots.len() - chosen.len(), 1nat, 0nat,
{
    let here = if chosen.len() > 0 {
        seq![emit_multi_spec(e, slots, pool, chosen)]
    } else {
        Seq::empty()
    };
    if chosen.len() < slots.len() {
        here + rec_iter_spec(e, slots, pool, chosen, pool.len())
    } else {
        here
    }
}

/// The extensions of `chosen` by each of the first `j` pool types.
pub open spec fn rec_iter_spec(e: ExpandedV, slots: Seq<usize>, pool: Seq<TypeDefV>, chosen: Seq<int>, j: nat) -> Seq<TypedV>
    decreases slots.len() - chosen.len(), 0nat, j,
{
    if j == 0 || chosen.len() >= slots.len() {
        Seq::empty()
    } else {
        rec_iter_spec(e, slots, pool, chosen, (j - 1) as nat) + rec_multi_spec(e, slots, pool, chosen.push(j - 1))
    }
}

/// Multi-slot fill (typed params): the base with every slot emptied, then
/// every non-empty prefix of pool choices.
pub open spec fn multi_slot_spec(e: ExpandedV, slots: Seq<usize>, pool: Seq<TypeDefV>) -> Seq<TypedV> {
    let empties = Seq::new(slots.len(), |i: int| Seq::<char>::empty());
    seq![typed_spec(e, e.stroke, with_types_spec(e.template, slots, empties, slots.len() as int), false, None)]
        + rec_multi_spec(e, slots, pool, Seq::empty())
}

/// The unfused chain: the type-less base, then one step per filling.
pub open spec fn unfused_iter(e: ExpandedV, slot: int, fs: Seq<FillingV>) -> Option<Seq<TypedV>>
    decreases fs.len(),
{
    if fs.len() == 0 {
        Some(Seq::empty())
    } else {
        match (unfused_iter(e, slot, fs.drop_last()), fill_spec(e.template, slot, fs.last())) {
            (Some(prev), Some(t)) => Some(
                prev.push(
                    typed_spec(
                        e,
                        e.stroke + seq!['/'] + join_slash(fs.last().suffix),
                        t,
                        fs.last().terminal,
                        Some(fs.last().text),
                    ),
                ),
            ),
            _ => None,
        }
    }
}

/// The fused chain: each filling's first stroke merged with the shape
/// segment (the stroke's last), the type-less base dropped.
pub open spec fn fused_iter(e: ExpandedV, slot: int, fs: Seq<FillingV>) -> Option<Seq<TypedV>>
    decreases fs.len(),
{
    if fs.len() == 0 {
        Some(Seq::empty())
    } else {
        match fused_iter(e, slot, fs.drop_last()) {
            None => None,
            Some(prev) => {
                let f = fs.last();
                if f.suffix.len() == 0 {
                    Some(prev)
                } else {
                    let segs = split_on(e.stroke, '/');
                    match (merge_spec(f.suffix[0], segs.last()), fill_spec(e.template, slot, f)) {
                        (Some(first), Some(t)) => Some(
                            prev.push(
                                typed_spec(
                                    e,
                                    join_slash(segs.drop_last().push(first) + f.suffix.skip(1)),
                                    t,
                                    f.terminal,
                                    Some(f.text),
                                ),
                            ),
                        ),
                        _ => None,
                    }
                }
            },
        }
    }
}

/// The message for a free type whose tabstop index does not fit.
pub open spec fn free_type_msg() -> Seq<char> {
    "free-type tabstop index does not fit"@
}

/// `m` says why the fused chain over `fs` fails: at the first failing step,
/// the merge of its first stroke with the shape, else its tabstop.
pub open spec fn fused_error(e: ExpandedV, slot: int, fs: Seq<FillingV>, m: Seq<char>) -> bool
    decreases fs.len(),
{
    if fs.len() == 0 {
        false
    } else if fused_iter(e, slot, fs.drop_last()) is None {
        fused_error(e, slot, fs.drop_last(), m)
    } else {
        let f = fs.last();
        let segs = split_on(e.stroke, '/');
        if merge_spec(f.suffix[0], segs.last()) is None {
            m == merge_error_msg(f.suffix[0], segs.last())
        } else {
            m == free_type_msg()
        }
    }
}

/// `m` says why Pass B fails on one entry.
pub open spec fn types_one_error(e: ExpandedV, types: Seq<TypeDefV>, pool: Seq<TypeDefV>, m: Seq<char>) -> bool {
    let slots = type_slots_spec(e.template);
    if e.source.flags.has(FUSE) {
        fused_error(e, slots[0] as int, fillings_spec(types, pool), m)
    } else {
        m == free_type_msg()
    }
}

/// `m` says why Pass B fails on many entries: the first that fails.
pub open spec fn types_error(es: Seq<ExpandedV>, types: Seq<TypeDefV>, pool: Seq<TypeDefV>, m: Seq<char>) -> bool
    decreases es.len(),
{
    if es.len() == 0 {
        false
    } else if expand_types_spec(es.drop_last(), types, pool) is None {
        types_error(es.drop_last(), types, pool, m)
    } else {
        types_one_error(es.last(), types, pool, m)
    }
}

/// Pass B over one count-expanded entry.
pub open spec fn expand_types_one_spec(e: ExpandedV, types: Seq<TypeDefV>, pool: Seq<TypeDefV>) -> Option<Seq<TypedV>> {
    let slots = type_slots_spec(e.template);
    if slots.len() == 0 {
        Some(seq![typed_spec(e, e.stroke, e.template, true, None)])
    } else if slots.len() > 1 {
        Some(multi_slot_spec(e, slots, pool))
    } else if e.source.flags.has(FUSE) {
        fused_iter(e, slots[0] as int, fillings_spec(types, pool))
    } else {
        let base = typed_spec(
            e,
            e.stroke,
            with_types_spec(e.template, seq![slots[0]], seq![Seq::<char>::empty()], 1),
            false,
            None,
        );
        match unfused_iter(e, slots[0] as int, fillings_spec(types, pool)) {
            Some(rest) => Some(seq![base] + rest),
            None => None,
        }
    }
}

/// Pass B over many entries: their chains concatenated.
pub open spec fn expand_types_spec(es: Seq<ExpandedV>, types: Seq<TypeDefV>, pool: Seq<TypeDefV>) -> Option<Seq<TypedV>>
    decreases es.len(),
{
    if es.len() == 0 {
        Some(Seq::empty())
    } else {
        match (expand_types_spec(es.drop_last(), types, pool), expand_types_one_spec(es.last(), types, pool)) {
            (Some(prev), Some(x)) => Some(prev + x),
            _ => None,
        }
    }
}

/// The per-slot texts for a choice prefix.
fn multi_texts_vec(slots: &Vec<usize>, pool: &Vec<TypeDef>, chosen: &Vec<usize>) -> (r: Vec<String>)
    requires
        chosen@.len() <= slots@.len(),
        forall|i: int| 0 <= i < chosen@.len() ==> (#[trigger] chosen@[i]) < pool@.len(),
    ensures
        strs_view(r@) == multi_texts(slots@, typedefs_view(pool@), ints(chosen@)),
{
    let ghost pv = typedefs_view(pool@);
    let ghost ch = ints(chosen@);
    let ghost mt = multi_texts(slots@, pv, ch);
    let none: Vec<String> = Vec::new();
    assert(strs_view(none@) == Seq::<Seq<char>>::empty());
    let mut texts: Vec<String> = Vec::new();
    let mut i: usize = 0;
    while i < slots.len()
        invariant
            i <= slots@.len(),
            chosen@.len() <= slots@.len(),
            pv == typedefs_view(pool@),
            ch == ints(chosen@),
            mt == multi_texts(slots@, pv, ch),
            forall|k: int| 0 <= k < chosen@.len() ==> (#[trigger] chosen@[k]) < pool@.len(),
            strs_view(none@) == Seq::<Seq<char>>::empty(),
            strs_view(texts@) == mt.take(i as int),
        decreases slots.len() - i,
    {
        let ghost before = strs_view(texts@);
        if i < chosen.len() {
            let t = render_type(pool[chosen[i]].text.as_str(), &none);
            texts.push(t);
        } else {
            texts.push(String::new());
        }
        proof {
            assert(strs_view(texts@) == before.push(mt[i as int]));
            assert(mt.take(i + 1) == mt.take(i as int).push(mt[i as int]));
        }
        i = i + 1;
    }
    assert(mt.take(i as int) == mt);
    texts
}

/// The strokes of the chosen pool types.
fn chosen_strokes(pool: &Vec<TypeDef>, chosen: &Vec<usize>) -> (r: Vec<String>)
    requires
        forall|i: int| 0 <= i < chosen@.len() ==> (#[trigger] chosen@[i]) < pool@.len(),
    ensures
        strs_view(r@) == Seq::new(chosen@.len(), |k: int| typedefs_view(pool@)[ints(chosen@)[k]].stroke),
{
    let ghost pv = typedefs_view(pool@);
    let ghost ch = ints(chosen@);
    let ghost want = Seq::new(chosen@.len(), |k: int| pv[ch[k]].stroke);
    let mut suffix: Vec<String> = Vec::new();
    let mut j: usize = 0;
    while j < chosen.len()
        invariant
            j <= chosen@.len(),
            pv == typedefs_view(pool@),
            ch == ints(chosen@),
            want == Seq::new(chosen@.len(), |k: int| pv[ch[k]].stroke),
            forall|k: int| 0 <= k < chosen@.len() ==> (#[trigger] chosen@[k]) < pool@.len(),
            strs_view(suffix@) == want.take(j as int),
        decreases chosen.len() - j,
    {
        let ghost before = strs_view(suffix@);
        suffix.push(copy_str(pool[chosen[j]].stroke.as_str()));
        proof {
            assert(strs_view(suffix@) == before.push(want[j as int]));
            assert(want.take(j + 1) == want.take(j as int).push(want[j as int]));
        }
        j = j + 1;
    }
    assert(want.take(j as int) == want);
    suffix
}

/// Emit the multi-slot entry for one non-empty prefix of pool choices.
fn emit_multi(entry: &ExpandedEntry, slots: &Vec<usize>, pool: &Vec<TypeDef>, chosen: &Vec<usize>, out: &mut Vec<TypedEntry>)
    requires
        chosen@.len() > 0,
        chosen@.len() <= slots@.len(),
        forall|i: int| 0 <= i < chosen@.len() ==> (#[trigger] chosen@[i]) < pool@.len(),
    ensures
        typeds_view(final(out)@) == typeds_view(old(out)@).push(
            emit_multi_spec(expanded_view(*entry), slots@, typedefs_view(pool@), ints(chosen@)),
        ),
{
    let texts = multi_texts_vec(slots, pool, chosen);
    let suffix = chosen_strokes(pool, chosen);
    let mut stroke = copy_str(entry.stroke.as_str());
    stroke.push('/');
    let js = join_all(&suffix);
    push_str(&mut stroke, js.as_str());
    let template = with_types(&entry.template, slots, &texts);
    let last = chosen[chosen.len() - 1];
    let label = Some(copy_str(pool[last].text.as_str()));
    let t = typed(entry, stroke, template, chosen.len() == slots.len(), label);
    out.push(t);
    proof {
        let pv = typedefs_view(pool@);
        let ch = ints(chosen@);
        let em = emit_multi_spec(expanded_view(*entry), slots@, pv, ch);
        assert(typeds_view(out@) == typeds_view(old(out)@).push(typed_view(t)));
        assert(ch.last() == last as int);
        assert(pv[last as int] == typedef_view(pool@[last as int]));
        assert(typed_view(t).type_label == em.type_label);
        assert(typed_view(t).stroke == em.stroke);
        assert(typed_view(t).template == em.template);
        assert(typed_view(t).terminal == em.terminal);
        assert(typed_view(t) == em);
    }
}

/// Recursion for the multi-slot fill: emit every non-empty prefix of pool
/// choices.
fn rec_multi(entry: &ExpandedEntry, slots: &Vec<usize>, pool: &Vec<TypeDef>, chosen: &Vec<usize>, out: &mut Vec<TypedEntry>)
    requires
        chosen@.len() <= slots@.len(),
        forall|i: int| 0 <= i < chosen@.len() ==> (#[trigger] chosen@[i]) < pool@.len(),
    ensures
        typeds_view(final(out)@) == typeds_view(old(out)@) + rec_multi_spec(
            expanded_view(*entry),
            slots@,
            typedefs_view(pool@),
            ints(chosen@),
        ),
    decreases slots@.len() - chosen@.len(),
{
    let ghost e = expanded_view(*entry);
    let ghost pv = typedefs_view(pool@);
    let ghost ch = ints(chosen@);
    let ghost o0 = typeds_view(out@);
    if chosen.len() > 0 {
        emit_multi(entry, slots, pool, chosen, out);
    }
    let ghost o1 = typeds_view(out@);
    proof {
        if chosen@.len() > 0 {
            assert(o1 == o0 + seq![emit_multi_spec(e, slots@, pv, ch)]);
        } else {
            assert(o1 == o0 + Seq::<TypedV>::empty());
        }
    }
    if chosen.len() < slots.len() {
        let mut k: usize = 0;
        while k < pool.len()
            invariant
                k <= pool@.len(),
                chosen@.len() < slots@.len(),
                forall|i: int| 0 <= i < chosen@.len() ==> (#[trigger] chosen@[i]) < pool@.len(),
                e == expanded_view(*entry),
                pv == typedefs_view(pool@),
                ch == ints(chosen@),
                typeds_view(out@) == o1 + rec_iter_spec(e, slots@, pv, ch, k as nat),
            decreases pool.len() - k,
        {
            let mut next: Vec<usize> = Vec::new();
            let mut q: usize = 0;
            while q < chosen.len()
                invariant
                    q <= chosen@.len(),
                    next@ == chosen@.take(q as int),
                decreases chosen.len() - q,
            {
                next.push(chosen[q]);
                q = q + 1;
                assert(chosen@.take(q as int) == chosen@.take((q - 1) as int).push(chosen@[q - 1]));
            }
            next.push(k);
            proof {
                assert(chosen@.take(q as int) == chosen@);
                assert(ints(next@) == ch.push(k as int));
            }
            let ghost before = typeds_view(out@);
            rec_multi(entry, slots, pool, &next, out);
            proof {
                assert(typeds_view(out@) == o1 + (rec_iter_spec(e, slots@, pv, ch, k as nat) + rec_multi_spec(e, slots@, pv, ch.push(k as int))));
            }
            k = k + 1;
        }
        proof {
            assert(typeds_view(out@) == o0 + rec_multi_spec(e, slots@, pv, ch));
        }
    } else {
        proof {
            assert(typeds_view(out@) == o0 + rec_multi_spec(e, slots@, pv, ch));
        }
    }
}

/// Multi-slot fill (typed params): every `%t` slot gets an arity-0 type from
/// the pool, appended one per slot. All slots must be filled to terminate.
fn expand_multi_slot(entry: &ExpandedEntry, slots: &Vec<usize>, pool: &Vec<TypeDef>) -> (r: Vec<TypedEntry>)
    ensures
        typeds_view(r@) == multi_slot_spec(expanded_view(*entry), slots@, typedefs_view(pool@)),
{
    let mut empty: Vec<String> = Vec::new();
    let mut i: usize = 0;
    while i < slots.len()
        invariant
            i <= slots@.len(),
            strs_view(empty@) == Seq::new(i as nat, |k: int| Seq::<char>::empty()),
        decreases slots.len() - i,
    {
        let ghost before = strs_view(empty@);
        empty.push(String::new());
        proof {
            assert(strs_view(empty@) == before.push(Seq::<char>::empty()));
            assert(Seq::new((i + 1) as nat, |k: int| Seq::<char>::empty()) == Seq::new(i as nat, |k: int| Seq::<char>::empty()).push(Seq::<char>::empty()));
        }
        i = i + 1;
    }
    let base = with_types(&entry.template, slots, &empty);
    let mut out: Vec<TypedEntry> = Vec::new();
    let t = typed(entry, copy_str(entry.stroke.as_str()), base, false, None);
    out.push(t);
    let chosen: Vec<usize> = Vec::new();
    proof {
        assert(typeds_view(out@) == seq![typed_view(t)]);
        assert(ints(chosen@) == Seq::<int>::empty());
    }
    rec_multi(entry, slots, pool, &chosen, &mut out);
    out
}

/// The fused stroke segments: all but the last of `segs`, then `first`,
/// then the rest of `suffix` after its first segment.
fn fused_segments(segs: &Vec<String>, first: String, suffix: &Vec<String>) -> (r: Vec<String>)
    requires
        segs@.len() > 0,
        suffix@.len() > 0,
    ensures
        strs_view(r@) == strs_view(segs@).drop_last().push(first@) + strs_view(suffix@).skip(1),
{
    let ns = segs.len();
    let ghost gv = strs_view(segs@);
    let ghost sv = strs_view(suffix@);
    let mut all: Vec<String> = Vec::new();
    let mut k: usize = 0;
    while k + 1 < ns
        invariant
            k + 1 <= ns,
            ns == segs@.len(),
            gv == strs_view(segs@),
            strs_view(all@) == gv.take(k as int),
        decreases ns - k,
    {
        let ghost b = strs_view(all@);
        all.push(copy_str(segs[k].as_str()));
        proof {
            assert(strs_view(all@) == b.push(segs@[k as int]@));
            assert(gv.take(k + 1) == gv.take(k as int).push(gv[k as int]));
        }
        k = k + 1;
    }
    let ghost b1 = strs_view(all@);
    let ghost fv = first@;
    all.push(first);
    proof {
        assert(strs_view(all@) == b1.push(fv));
        assert(gv.take(k as int) == gv.drop_last());
    }
    let mut q: usize = 1;
    while q < suffix.len()
        invariant
            1 <= q <= suffix@.len(),
            sv == strs_view(suffix@),
            strs_view(all@) == gv.drop_last().push(fv) + sv.subrange(1, q as int),
        decreases suffix.len() - q,
    {
        let ghost b = strs_view(all@);
        all.push(copy_str(suffix[q].as_str()));
        proof {
            assert(strs_view(all@) == b.push(suffix@[q as int]@));
            assert(sv.subrange(1, q + 1) == sv.subrange(1, q as int).push(sv[q as int]));
        }
        q = q + 1;
    }
    assert(sv.subrange(1, q as int) == sv.skip(1));
    all
}

/// A failing step makes the whole unfused chain fail.
proof fn lemma_unfused_none(e: ExpandedV, slot: int, fs: Seq<FillingV>, j: int)
    requires
        0 <= j <= fs.len(),
        unfused_iter(e, slot, fs.take(j)) is None,
    ensures
        unfused_iter(e, slot, fs) is None,
    decreases fs.len() - j,
{
    if j < fs.len() {
        assert(fs.take(j + 1).drop_last() == fs.take(j));
        lemma_unfused_none(e, slot, fs, j + 1);
    } else {
        assert(fs.take(j) == fs);
    }
}

/// A failing prefix fixes why the fused chain fails.
proof fn lemma_fused_error(e: ExpandedV, slot: int, fs: Seq<FillingV>, j: int, m: Seq<char>)
    requires
        0 <= j <= fs.len(),
        fused_iter(e, slot, fs.take(j)) is None,
        fused_error(e, slot, fs.take(j), m),
    ensures
        fused_error(e, slot, fs, m),
    decreases fs.len() - j,
{
    if j < fs.len() {
        assert(fs.take(j + 1).drop_last() == fs.take(j));
        lemma_fused_error(e, slot, fs, j + 1, m);
    } else {
        assert(fs.take(j) == fs);
    }
}

/// A failing step makes the whole fused chain fail.
proof fn lemma_fused_none(e: ExpandedV, slot: int, fs: Seq<FillingV>, j: int)
    requires
        0 <= j <= fs.len(),
        fused_iter(e, slot, fs.take(j)) is None,
    ensures
        fused_iter(e, slot, fs) is None,
    decreases fs.len() - j,
{
    if j < fs.len() {
        assert(fs.take(j + 1).drop_last() == fs.take(j));
        lemma_fused_none(e, slot, fs, j + 1);
    } else {
        assert(fs.take(j) == fs);
    }
}

/// Fuse path: merge the construct's last segment (the shape selector) into
/// the first appended type stroke, and drop the type-less base entirely.
fn expand_fused(entry: &ExpandedEntry, slot: usize, opts: &TypeOptions) -> (r: Result<Vec<TypedEntry>, ExpandError>)
    ensures
        match fused_iter(
            expanded_view(*entry),
            slot as int,
            fillings_spec(typedefs_view(opts.types@), typedefs_view(opts.generic_args@)),
        ) {
            Some(s) => r matches Ok(v) && typeds_view(v@) == s,
            None => r matches Err(er) && fused_error(
                expanded_view(*entry),
                slot as int,
                fillings_spec(typedefs_view(opts.types@), typedefs_view(opts.generic_args@)),
                er.spec_message(),
            ),
        },
{
    let ghost e = expanded_view(*entry);
    let segs = split_string(entry.stroke.as_str(), '/');
    let ns = segs.len();
    let shape = segs[ns - 1].as_str();
    let fs = fillings(opts);
    let ghost fv = fillings_view(fs@);
    let mut out: Vec<TypedEntry> = Vec::new();
    let mut i: usize = 0;
    assert(fv.take(0) == Seq::<FillingV>::empty());
    while i < fs.len()
        invariant
            i <= fs@.len(),
            e == expanded_view(*entry),
            fv == fillings_view(fs@),
            fv == fillings_spec(typedefs_view(opts.types@), typedefs_view(opts.generic_args@)),
            ns == segs@.len(),
            ns > 0,
            strs_view(segs@) == split_on(e.stroke, '/'),
            shape@ == split_on(e.stroke, '/').last(),
            fused_iter(e, slot as int, fv.take(i as int)) == Some(typeds_view(out@)),
        decreases fs.len() - i,
    {
        let f = &fs[i];
        proof {
            assert(fv.take(i + 1).drop_last() == fv.take(i as int));
            assert(fv.take(i + 1).last() == filling_view(*f));
        }
        if f.suffix.len() > 0 {
            let first = match merge_strokes(f.suffix[0].as_str(), shape) {
                Ok(m) => m,
                Err(er) => {
                    proof {
                        assert(filling_view(*f).suffix[0] == f.suffix@[0]@);
                        assert(merge_spec(filling_view(*f).suffix[0], split_on(e.stroke, '/').last()) is None);
                        assert(fused_iter(e, slot as int, fv.take(i + 1)) is None);
                        lemma_fused_none(e, slot as int, fv, i + 1);
                        assert(fused_error(e, slot as int, fv.take(i + 1), er.spec_message()));
                        lemma_fused_error(e, slot as int, fv, i + 1, er.spec_message());
                    }
                    return Err(ExpandError::from_stroke(er));
                },
            };
            let template = match fill_template(&entry.template, slot, f) {
                Some(t) => t,
                None => {
                    proof {
                        lemma_fused_none(e, slot as int, fv, i + 1);
                        assert(fused_error(e, slot as int, fv.take(i + 1), free_type_msg()));
                        lemma_fused_error(e, slot as int, fv, i + 1, free_type_msg());
                    }
                    return Err(ExpandError::new(copy_str("free-type tabstop index does not fit")));
                },
            };
            let all = fused_segments(&segs, first, &f.suffix);
            let stroke = join_all(&all);
            let label = Some(copy_str(f.text.as_str()));
            let t = typed(entry, stroke, template, f.terminal, label);
            let ghost before = typeds_view(out@);
            out.push(t);
            proof {
                assert(typeds_view(out@) == before.push(typed_view(t)));
            }
        }
        i = i + 1;
    }
    assert(fv.take(i as int) == fv);
    Ok(out)
}

/// Build the type-append chain(s) for one count-expanded entry.
///
/// Fails when a fuse merge hits a shared key (or a free type's tabstop index
/// does not fit).
pub fn expand_types_one(entry: &ExpandedEntry, opts: &TypeOptions) -> (r: Result<Vec<TypedEntry>, ExpandError>)
    ensures
        match expand_types_one_spec(expanded_view(*entry), typedefs_view(opts.types@), typedefs_view(opts.generic_args@)) {
            Some(s) => r matches Ok(v) && typeds_view(v@) == s,
            None => r matches Err(er) && types_one_error(
                expanded_view(*entry),
                typedefs_view(opts.types@),
                typedefs_view(opts.generic_args@),
                er.spec_message(),
            ),
        },
{
    let ghost e = expanded_view(*entry);
    let slots = type_slots(&entry.template);
    if slots.len() == 0 {
        let mut out: Vec<TypedEntry> = Vec::new();
        let t = typed(entry, copy_str(entry.stroke.as_str()), crate::parse::copy_chunks(&entry.template), true, None);
        out.push(t);
        assert(typeds_view(out@) == seq![typed_view(t)]);
        return Ok(out);
    }
    if slots.len() > 1 {
        return Ok(expand_multi_slot(entry, &slots, &opts.generic_args));
    }
    let slot = slots[0];
    if entry.source.flags.fuse() {
        return expand_fused(entry, slot, opts);
    }
    match expand_unfused(entry, slot, opts) {
        Ok(v) => Ok(v),
        Err(er) => Err(er),
    }
}

/// The unfused chain for a single-slot entry: the type-less base, then one
/// step per filling.
fn expand_unfused(entry: &ExpandedEntry, slot: usize, opts: &TypeOptions) -> (r: Result<Vec<TypedEntry>, ExpandError>)
    ensures
        ({
            let e = expanded_view(*entry);
            let base = typed_spec(
                e,
                e.stroke,
                with_types_spec(e.template, seq![slot], seq![Seq::<char>::empty()], 1),
                false,
                None,
            );
            match unfused_iter(e, slot as int, fillings_spec(typedefs_view(opts.types@), typedefs_view(opts.generic_args@))) {
                Some(rest) => r matches Ok(v) && typeds_view(v@) == seq![base] + rest,
                None => r matches Err(er) && er.spec_message() == free_type_msg(),
            }
        }),
{
    let ghost e = expanded_view(*entry);
    let mut one: Vec<usize> = Vec::new();
    one.push(slot);
    let mut blank: Vec<String> = Vec::new();
    blank.push(String::new());
    proof {
        assert(strs_view(blank@) == seq![Seq::<char>::empty()]);
    }
    let base = with_types(&entry.template, &one, &blank);
    let mut out: Vec<TypedEntry> = Vec::new();
    let bt = typed(entry, copy_str(entry.stroke.as_str()), base, false, None);
    out.push(bt);
    let ghost bv = typed_view(bt);
    let fs = fillings(opts);
    let ghost fv = fillings_view(fs@);
    let mut i: usize = 0;
    let ghost want = typed_spec(
        e,
        e.stroke,
        with_types_spec(e.template, seq![slot], seq![Seq::<char>::empty()], 1),
        false,
        None,
    );
    proof {
        assert(fv.take(0) == Seq::<FillingV>::empty());
        assert(typeds_view(out@) == seq![bv] + Seq::<TypedV>::empty());
        assert(one@ == seq![slot]);
        assert(pair_count(one@, strs_view(blank@)) == 1);
        assert(bv == want);
    }
    while i < fs.len()
        invariant
            i <= fs@.len(),
            bv == want,
            e == expanded_view(*entry),
            fv == fillings_view(fs@),
            fv == fillings_spec(typedefs_view(opts.types@), typedefs_view(opts.generic_args@)),
            unfused_iter(e, slot as int, fv.take(i as int)) matches Some(p) && typeds_view(out@) == seq![bv] + p,
        decreases fs.len() - i,
    {
        let f = &fs[i];
        proof {
            assert(fv.take(i + 1).drop_last() == fv.take(i as int));
            assert(fv.take(i + 1).last() == filling_view(*f));
        }
        let template = match fill_template(&entry.template, slot, f) {
            Some(t) => t,
            None => {
                proof {
                    lemma_unfused_none(e, slot as int, fv, i + 1);
                }
                return Err(ExpandError::new(copy_str("free-type tabstop index does not fit")));
            },
        };
        let mut stroke = copy_str(entry.stroke.as_str());
        stroke.push('/');
        let js = join_all(&f.suffix);
        push_str(&mut stroke, js.as_str());
        let t = typed(entry, stroke, template, f.terminal, Some(copy_str(f.text.as_str())));
        let ghost before = typeds_view(out@);
        out.push(t);
        proof {
            assert(typeds_view(out@) == before.push(typed_view(t)));
            let p = unfused_iter(e, slot as int, fv.take(i as int))->0;
            let fl = fv.take(i + 1).last();
            assert(fl == filling_view(*f));
            assert(fl.suffix == strs_view(f.suffix@));
            assert(typed_view(t).stroke == e.stroke + seq!['/'] + join_slash(fl.suffix));
            assert(fill_spec(e.template, slot as int, fl) == Some(typed_view(t).template));
            assert(typed_view(t) == typed_spec(e, e.stroke + seq!['/'] + join_slash(fl.suffix), typed_view(t).template, fl.terminal, Some(fl.text)));
            assert(unfused_iter(e, slot as int, fv.take(i + 1)) == Some(p.push(typed_view(t))));
            assert(seq![bv] + p.push(typed_view(t)) =~= (seq![bv] + p).push(typed_view(t)));
        }
        i = i + 1;
    }
    assert(fv.take(i as int) == fv);
    Ok(out)
}

/// A failing prefix fixes why the batch fails.
proof fn lemma_types_error(es: Seq<ExpandedV>, types: Seq<TypeDefV>, pool: Seq<TypeDefV>, j: int, m: Seq<char>)
    requires
        0 <= j <= es.len(),
        expand_types_spec(es.take(j), types, pool) is None,
        types_error(es.take(j), types, pool, m),
    ensures
        types_error(es, types, pool, m),
    decreases es.len() - j,
{
    if j < es.len() {
        assert(es.take(j + 1).drop_last() == es.take(j));
        lemma_types_error(es, types, pool, j + 1, m);
    } else {
        assert(es.take(j) == es);
    }
}

/// A failing entry makes the whole batch fail.
proof fn lemma_types_none(es: Seq<ExpandedV>, types: Seq<TypeDefV>, pool: Seq<TypeDefV>, j: int)
    requires
        0 <= j <= es.len(),
        expand_types_spec(es.take(j), types, pool) is None,
    ensures
        expand_types_spec(es, types, pool) is None,
    decreases es.len() - j,
{
    if j < es.len() {
        assert(es.take(j + 1).drop_last() == es.take(j));
        lemma_types_none(es, types, pool, j + 1);
    } else {
        assert(es.take(j) == es);
    }
}

/// Apply [`expand_types_one`] to every count-expanded entry.
///
/// Fails on the first entry that fails.
pub fn expand_types(entries: &[ExpandedEntry], opts: &TypeOptions) -> (r: Result<Vec<TypedEntry>, ExpandError>)
    ensures
        match expand_types_spec(expandeds_view(entries@), typedefs_view(opts.types@), typedefs_view(opts.generic_args@)) {
            Some(s) => r matches Ok(v) && typeds_view(v@) == s,
            None => r matches Err(er) && types_error(
                expandeds_view(entries@),
                typedefs_view(opts.types@),
                typedefs_view(opts.generic_args@),
                er.spec_message(),
            ),
        },
{
    let ghost es = expandeds_view(entries@);
    let ghost tv = typedefs_view(opts.types@);
    let ghost pv = typedefs_view(opts.generic_args@);
    let mut out: Vec<TypedEntry> = Vec::new();
    let mut i: usize = 0;
    assert(es.take(0) == Seq::<ExpandedV>::empty());
    while i < entries.len()
        invariant
            i <= entries@.len(),
            es == expandeds_view(entries@),
            tv == typedefs_view(opts.types@),
            pv == typedefs_view(opts.generic_args@),
            expand_types_spec(es.take(i as int), tv, pv) == Some(typeds_view(out@)),
        decreases entries.len() - i,
    {
        proof {
            assert(es.take(i + 1).drop_last() == es.take(i as int));
            assert(es.take(i + 1).last() == expanded_view(entries@[i as int]));
        }
        match expand_types_one(&entries[i], opts) {
            Ok(mut v) => {
                let ghost a = out@;
                let ghost b = v@;
                out.append(&mut v);
                proof {
                    assert(typeds_view(out@) =~= typeds_view(a) + typeds_view(b));
                }
            },
            Err(er) => {
                proof {
                    lemma_types_none(es, tv, pv, i + 1);
                    lemma_types_error(es, tv, pv, i + 1, er.spec_message());
                }
                return Err(er);
            },
        }
        i = i + 1;
    }
    assert(es.take(i as int) == es);
    Ok(out)
}

} // verus!
