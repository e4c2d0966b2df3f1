//! The programmatic path: build two small tables from Pass A output — a
//! **type table** and a **construct table** — and never run Pass B. The
//! obligation-stack walker ([`walk`]) replays the type-append that
//! Pass B would have enumerated, at a cost proportional to the strokes
//! pressed rather than exponential in their count.
use vstd::prelude::*;
use super::counts::{expand_counts, expand_counts_error, expand_counts_spec};
use super::types::{type_text_error, type_text_spec};
use super::{expanded_view, expandeds_view, ExpandedEntry, ExpandedV};
use crate::error::ExpandError;
use crate::parse::source::{entry_view, entries_view, EntryV};
use crate::parse::{cv, lemma_cv, strs_view, Chunk, ChunkV, Entry, FUSE, IS_TYPE};
use crate::text::{concat3, copy_str, push_str, split_on, split_string};

pub mod emit;
pub mod fuse;
pub mod walk;

pub use fuse::check_fuse_ambiguity;

verus! {

broadcast use vstd::seq_lib::group_seq_properties;

/// One record of the **type table**: an appendable `@type`, with its stroke,
/// generic arity, and text carrying `%t` argument markers.
#[derive(Debug)]
pub struct InfType {
    /// The type's own stroke, e.g. `AR`.
    pub stroke: String,
    /// Generic-argument count (0 = concrete).
    pub arity: u32,
    /// Rendered text with `%t` arg markers, e.g. `Array<%t>` or `number`.
    pub text: String,
}

/// Model of a type-table record.
pub struct InfTypeV {
    pub stroke: Seq<char>,
    pub arity: u32,
    pub text: Seq<char>,
}

/// The model of a type-table record.
pub open spec fn inftype_view(t: InfType) -> InfTypeV {
    InfTypeV { stroke: t.stroke@, arity: t.arity, text: t.text@ }
}

/// The models of a type table.
pub open spec fn inftypes_view(v: Seq<InfType>) -> Seq<InfTypeV> {
    v.map_values(|t: InfType| inftype_view(t))
}

/// One record of the **construct table**: a count-resolved Pass-A output
/// with zero enumerated rows — just its base stroke, its `%t`/`%T` slot
/// positions, and the order strokes fill them.
#[derive(Debug)]
pub struct Construct {
    /// Base stroke segments matched as a prefix. For a fused construct this
    /// is the stroke minus its last (shape) segment.
    pub base: Vec<String>,
    /// The fuse shape segment (the last stroke segment). `Some` iff `@fuse`
    /// applies; the fuse-target type stroke merges into it.
    pub shape: Option<String>,
    /// Count-resolved template with `TypeSlot`/`FusedTypeSlot` chunks intact.
    pub template: Vec<Chunk>,
    /// Template indices of the type slots, in template order.
    pub slots: Vec<usize>,
    /// Slot indices (into `slots`) in the order strokes fill them. For a
    /// fused construct the fuse-target slot leads; otherwise it is template
    /// order.
    pub fill_order: Vec<usize>,
    /// The full Pass-A stroke (diagnostics and the ambiguity check).
    pub source_stroke: String,
}

/// Model of a construct record.
pub struct ConstructV {
    pub base: Seq<Seq<char>>,
    pub shape: Option<Seq<char>>,
    pub template: Seq<ChunkV>,
    pub slots: Seq<usize>,
    pub fill_order: Seq<usize>,
    pub source_stroke: Seq<char>,
}

/// The model of a construct record.
pub open spec fn construct_view(c: Construct) -> ConstructV {
    ConstructV {
        base: strs_view(c.base@),
        shape: crate::parse::opt_view(c.shape),
        template: cv(&c.template),
        slots: c.slots@,
        fill_order: c.fill_order@,
        source_stroke: c.source_stroke@,
    }
}

/// The models of a construct table.
pub open spec fn constructs_view(v: Seq<Construct>) -> Seq<ConstructV> {
    v.map_values(|c: Construct| construct_view(c))
}

/// The type table of the `@type` entries, in order.
pub open spec fn build_types_spec(es: Seq<EntryV>) -> Option<Seq<InfTypeV>>
    decreases es.len(),
{
    if es.len() == 0 {
        Some(Seq::empty())
    } else {
        match build_types_spec(es.drop_last()) {
            None => None,
            Some(prev) => {
                let e = es.last();
                if !e.flags.has(IS_TYPE) {
                    Some(prev)
                } else {
                    match type_text_spec(e.template) {
                        None => None,
                        Some(t) => Some(
                            prev.push(
                                InfTypeV {
                                    stroke: e.stroke_raw,
                                    arity: match e.arity {
                                        Some(a) => a,
                                        None => 0,
                                    },
                                    text: t,
                                },
                            ),
                        ),
                    }
                }
            },
        }
    }
}

/// Why the type table cannot be built: the first `@type` template without
/// text.
pub open spec fn build_types_error(es: Seq<EntryV>) -> Seq<char>
    decreases es.len(),
{
    if es.len() == 0 {
        Seq::empty()
    } else if build_types_spec(es.drop_last()) is None {
        build_types_error(es.drop_last())
    } else {
        type_text_error(es.last().template, "@type entry in the infinite corpus"@)
    }
}

/// A failing prefix fixes why the type table fails.
proof fn lemma_types_error(es: Seq<EntryV>, i: int)
    requires
        0 <= i <= es.len(),
        build_types_spec(es.take(i)) is None,
    ensures
        build_types_spec(es) is None,
        build_types_error(es) == build_types_error(es.take(i)),
    decreases es.len() - i,
{
    if i < es.len() {
        assert(es.take(i + 1).drop_last() == es.take(i));
        lemma_types_error(es, i + 1);
    } else {
        assert(es.take(i) == es);
    }
}

/// Render a `@type` template to its text form (only `Lit` and `%t` are
/// legal; `%T` is a construct-only marker).
fn render_type_text(template: &Vec<Chunk>) -> (r: Result<String, ExpandError>)
    ensures
        match type_text_spec(cv(template)) {
            Some(t) => r matches Ok(s) && s@ == t,
            None => r matches Err(e) && e.spec_message() == type_text_error(cv(template), "@type entry in the infinite corpus"@),
        },
{
    super::types::type_text_for(template, "@type entry in the infinite corpus")
}

/// Collect the `@type` entries into the type table.
///
/// Fails when a `@type` template holds anything but literals and `%t`
/// markers.
pub fn build_types(entries: &[Entry]) -> (r: Result<Vec<InfType>, ExpandError>)
    ensures
        match build_types_spec(entries_view(entries@)) {
            Some(ts) => r matches Ok(v) && inftypes_view(v@) == ts,
            None => r matches Err(e) && e.spec_message() == build_types_error(entries_view(entries@)),
        },
{
    let ghost es = entries_view(entries@);
    let mut out: Vec<InfType> = Vec::new();
    let mut i: usize = 0;
    assert(es.take(0) == Seq::<EntryV>::empty());
    while i < entries.len()
        invariant
            i <= entries@.len(),
            es == entries_view(entries@),
            build_types_spec(es.take(i as int)) == Some(inftypes_view(out@)),
        decreases entries.len() - i,
    {
        let e = &entries[i];
        proof {
            assert(es.take(i + 1).drop_last() == es.take(i as int));
            assert(es.take(i + 1).last() == entry_view(*e));
        }
        if e.flags.is_type() {
            let text = match render_type_text(&e.template) {
                Ok(t) => t,
                Err(er) => {
                    proof {
                        lemma_types_error(es, i + 1);
                    }
                    return Err(er);
                },
            };
            let arity = match e.arity {
                Some(a) => a,
                None => 0,
            };
            let t = InfType { stroke: copy_str(e.stroke_raw.as_str()), arity, text };
            let ghost before = out@;
            out.push(t);
            proof {
                assert(inftypes_view(out@) == inftypes_view(before).push(inftype_view(t)));
            }
        }
        i = i + 1;
    }
    assert(es.take(i as int) == es);
    Ok(out)
}

/// A type slot (`%t` or the fuse-target `%T`).
pub open spec fn is_slot_spec(c: ChunkV) -> bool {
    c is TypeSlot || c is FusedTypeSlot
}

/// True for a type slot (`%t` or the fuse-target `%T`).
pub fn is_slot(c: &Chunk) -> (b: bool)
    ensures
        b == is_slot_spec(c@),
{
    match c {
        Chunk::TypeSlot | Chunk::FusedTypeSlot => true,
        _ => false,
    }
}

/// Template indices of the type slots, in template order.
pub open spec fn slot_positions_spec(cs: Seq<ChunkV>) -> Seq<usize>
    decreases cs.len(),
{
    if cs.len() == 0 {
        Seq::empty()
    } else {
        let prev = slot_positions_spec(cs.drop_last());
        if is_slot_spec(cs.last()) {
            prev.push((cs.len() - 1) as usize)
        } else {
            prev
        }
    }
}

/// Template indices of the type slots, in template order.
fn slot_positions(template: &Vec<Chunk>) -> (r: Vec<usize>)
    ensures
        r@ == slot_positions_spec(cv(template)),
{
    let ghost cs = cv(template);
    proof {
        lemma_cv(template);
        assert(cs.take(0) == Seq::<ChunkV>::empty());
    }
    let mut out: Vec<usize> = Vec::new();
    let mut i: usize = 0;
    while i < template.len()
        invariant
            cs == cv(template),
            cs.len() == template@.len(),
            forall|j: int| 0 <= j < template@.len() ==> #[trigger] cs[j] == template@[j]@,
            i <= template@.len(),
            out@ == slot_positions_spec(cs.take(i as int)),
        decreases template.len() - i,
    {
        proof {
            assert(cs.take(i + 1).drop_last() == cs.take(i as int));
            assert(cs.take(i + 1).last() == cs[i as int]);
        }
        if is_slot(&template[i]) {
            out.push(i);
        }
        i = i + 1;
    }
    assert(cs.take(i as int) == cs);
    out
}

/// The index (into `slots`) of the first `%T` slot, or 0.
pub open spec fn fuse_slot_from(cs: Seq<ChunkV>, slots: Seq<usize>, k: int) -> int
    decreases slots.len() - k,
{
    if k < 0 || k >= slots.len() {
        0
    } else if (slots[k] as int) < cs.len() && cs[slots[k] as int] is FusedTypeSlot {
        k
    } else {
        fuse_slot_from(cs, slots, k + 1)
    }
}

/// The indices `0..n`.
pub open spec fn iota(n: nat) -> Seq<usize> {
    Seq::new(n, |k: int| k as usize)
}

/// The indices `0..n` except `f`, in order.
pub open spec fn iota_except(n: nat, f: int) -> Seq<usize>
    decreases n,
{
    if n == 0 {
        Seq::empty()
    } else {
        let prev = iota_except((n - 1) as nat, f);
        if n - 1 == f {
            prev
        } else {
            prev.push((n - 1) as usize)
        }
    }
}

/// The construct record of one count-resolved entry.
pub open spec fn build_construct_spec(e: ExpandedV) -> ConstructV {
    let slots = slot_positions_spec(e.template);
    let segs = split_on(e.stroke, '/');
    if e.source.flags.has(FUSE) && slots.len() > 0 {
        let f = fuse_slot_from(e.template, slots, 0);
        ConstructV {
            base: segs.drop_last(),
            shape: Some(segs.last()),
            template: e.template,
            slots,
            fill_order: seq![f as usize] + iota_except(slots.len(), f),
            source_stroke: e.stroke,
        }
    } else {
        ConstructV {
            base: segs,
            shape: None,
            template: e.template,
            slots,
            fill_order: iota(slots.len()),
            source_stroke: e.stroke,
        }
    }
}

/// The fill order of a fused construct.
fn fused_fill_order(template: &Vec<Chunk>, slots: &Vec<usize>) -> (r: Vec<usize>)
    ensures
        r@ == seq![fuse_slot_from(cv(template), slots@, 0) as usize] + iota_except(slots@.len(), fuse_slot_from(cv(template), slots@, 0)),
{
    let ghost cs = cv(template);
    proof {
        lemma_cv(template);
    }
    let n = slots.len();
    let mut k: usize = 0;
    let mut found: usize = 0;
    let mut done = false;
    while k < n && !done
        invariant
            k <= n,
            n == slots@.len(),
            cs == cv(template),
            cs.len() == template@.len(),
            forall|j: int| 0 <= j < template@.len() ==> #[trigger] cs[j] == template@[j]@,
            !done ==> fuse_slot_from(cs, slots@, k as int) == fuse_slot_from(cs, slots@, 0),
            done ==> found as int == fuse_slot_from(cs, slots@, 0),
        decreases n - k + (if done { 0int } else { 1int }),
    {
        let p = slots[k];
        if p < template.len() {
            if let Chunk::FusedTypeSlot = &template[p] {
                found = k;
                done = true;
            }
        }
        if !done {
            k = k + 1;
        }
    }
    let f = if done {
        found
    } else {
        0
    };
    let mut order: Vec<usize> = Vec::new();
    order.push(f);
    let mut j: usize = 0;
    while j < n
        invariant
            j <= n,
            n == slots@.len(),
            f as int == fuse_slot_from(cs, slots@, 0),
            cs == cv(template),
            order@ == seq![f] + iota_except(j as nat, f as int),
        decreases n - j,
    {
        if j != f {
            order.push(j);
        }
        j = j + 1;
    }
    order
}

/// Build one construct record from a count-resolved entry.
fn build_construct(e: &ExpandedEntry) -> (r: Construct)
    ensures
        construct_view(r) == build_construct_spec(expanded_view(*e)),
{
    let slots = slot_positions(&e.template);
    let mut segs = split_string(e.stroke.as_str(), '/');
    if e.source.flags.fuse() && slots.len() > 0 {
        let order = fused_fill_order(&e.template, &slots);
        let ghost sv = strs_view(segs@);
        let shape = segs.pop();
        proof {
            assert(strs_view(segs@) == sv.drop_last());
        }
        let r = Construct {
            base: segs,
            shape,
            template: crate::parse::copy_chunks(&e.template),
            slots,
            fill_order: order,
            source_stroke: copy_str(e.stroke.as_str()),
        };
        r
    } else {
        let mut order: Vec<usize> = Vec::new();
        let mut j: usize = 0;
        while j < slots.len()
            invariant
                j <= slots@.len(),
                order@ == iota(j as nat),
            decreases slots.len() - j,
        {
            order.push(j);
            j = j + 1;
            assert(order@ =~= iota(j as nat));
        }
        Construct {
            base: segs,
            shape: None,
            template: crate::parse::copy_chunks(&e.template),
            slots,
            fill_order: order,
            source_stroke: copy_str(e.stroke.as_str()),
        }
    }
}

/// The construct table: every count-resolved expansion of every
/// non-`@type` entry, as a construct record.
pub open spec fn build_constructs_spec(es: Seq<EntryV>) -> Option<Seq<ConstructV>>
    decreases es.len(),
{
    if es.len() == 0 {
        Some(Seq::empty())
    } else {
        match build_constructs_spec(es.drop_last()) {
            None => None,
            Some(prev) => {
                let e = es.last();
                if e.flags.has(IS_TYPE) {
                    Some(prev)
                } else {
                    match expand_counts_spec(e) {
                        None => None,
                        Some(xs) => Some(prev + xs.map_values(|x: ExpandedV| build_construct_spec(x))),
                    }
                }
            },
        }
    }
}

/// Why the construct table cannot be built: Pass A's error on the first
/// entry it fails on.
pub open spec fn build_constructs_error(es: Seq<EntryV>) -> Seq<char>
    decreases es.len(),
{
    if es.len() == 0 {
        Seq::empty()
    } else if build_constructs_spec(es.drop_last()) is None {
        build_constructs_error(es.drop_last())
    } else {
        expand_counts_error(es.last())
    }
}

proof fn lemma_constructs_none(es: Seq<EntryV>, j: int)
    requires
        0 <= j <= es.len(),
        build_constructs_spec(es.take(j)) is None,
    ensures
        build_constructs_spec(es) is None,
        build_constructs_error(es) == build_constructs_error(es.take(j)),
    decreases es.len() - j,
{
    if j < es.len() {
        assert(es.take(j + 1).drop_last() == es.take(j));
        lemma_constructs_none(es, j + 1);
    } else {
        assert(es.take(j) == es);
    }
}

/// Build the construct table: run Pass A over every non-`@type` entry, then
/// record each count-resolved output as one construct (no Pass B).
///
/// Fails on any Pass A (count) misconfiguration.
pub fn build_constructs(entries: &[Entry]) -> (r: Result<Vec<Construct>, ExpandError>)
    ensures
        match build_constructs_spec(entries_view(entries@)) {
            Some(cs) => r matches Ok(v) && constructs_view(v@) == cs,
            None => r matches Err(e) && e.spec_message() == build_constructs_error(entries_view(entries@)),
        },
{
    let ghost es = entries_view(entries@);
    let mut out: Vec<Construct> = Vec::new();
    let mut i: usize = 0;
    assert(es.take(0) == Seq::<EntryV>::empty());
    while i < entries.len()
        invariant
            i <= entries@.len(),
            es == entries_view(entries@),
            build_constructs_spec(es.take(i as int)) == Some(constructs_view(out@)),
        decreases entries.len() - i,
    {
        let e = &entries[i];
        proof {
            assert(es.take(i + 1).drop_last() == es.take(i as int));
            assert(es.take(i + 1).last() == entry_view(*e));
        }
        if !e.flags.is_type() {
            let xs = match expand_counts(e) {
                Ok(xs) => xs,
                Err(er) => {
                    proof {
                        lemma_constructs_none(es, i + 1);
                    }
                    return Err(er);
                },
            };
            let ghost o0 = constructs_view(out@);
            let ghost xv = expandeds_view(xs@);
            let mut k: usize = 0;
            while k < xs.len()
                invariant
                    k <= xs@.len(),
                    xv == expandeds_view(xs@),
                    constructs_view(out@) == o0 + xv.take(k as int).map_values(|x: ExpandedV| build_construct_spec(x)),
                decreases xs.len() - k,
            {
                let c = build_construct(&xs[k]);
                let ghost before = constructs_view(out@);
                out.push(c);
                proof {
                    assert(constructs_view(out@) == before.push(construct_view(c)));
                    assert(xv.take(k + 1).map_values(|x: ExpandedV| build_construct_spec(x)) =~= xv.take(k as int).map_values(|x: ExpandedV| build_construct_spec(x)).push(build_construct_spec(xv[k as int])));
                }
                k = k + 1;
            }
            assert(xv.take(k as int) == xv);
        }
        i = i + 1;
    }
    assert(es.take(i as int) == es);
    Ok(out)
}

/// Build both tables for the programmatic corpus.
///
/// Fails on a bad `@type` template or a Pass A failure.
pub fn build_tables(entries: &[Entry]) -> (r: Result<(Vec<InfType>, Vec<Construct>), ExpandError>)
    ensures
        match (build_types_spec(entries_view(entries@)), build_constructs_spec(entries_view(entries@))) {
            (Some(ts), Some(cs)) => r matches Ok((a, b)) && inftypes_view(a@) == ts && constructs_view(b@) == cs,
            (None, _) => r matches Err(e) && e.spec_message() == build_types_error(entries_view(entries@)),
            (Some(_), None) => r matches Err(e) && e.spec_message() == build_constructs_error(entries_view(entries@)),
        },
{
    let types = match build_types(entries) {
        Ok(t) => t,
        Err(e) => {
            return Err(e);
        },
    };
    let constructs = match build_constructs(entries) {
        Ok(c) => c,
        Err(e) => {
            return Err(e);
        },
    };
    Ok((types, constructs))
}

} // verus!
