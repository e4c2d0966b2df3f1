//! Passes A and B — count expansion and type-append — plus the one-liner
//! line-flag pass. Bridges the parsed AST to the `TypedEntry` records both
//! renderers consume.
use vstd::prelude::*;
use crate::error::ExpandError;
use crate::parse::source::{entries_view, entry_view, EntryV};
use crate::parse::{chunks_view, cv, opt_view, ChunkV, Chunk, Entry, IS_TYPE};
use append::{expand_types_one, expand_types_spec, types_error};
use counts::{expand_counts, expand_counts_error, expand_counts_spec};
use family::{fix_family_terminals, fixed_entry, roots_spec};
use lineflag::{expand_line_flag, line_flag_error, line_flag_spec};
use types::{arity0_spec, build_type_set, no_arg_strokes, type_defs_error, type_defs_spec, typedef_view, typedefs_view, TypeDef, TypeDefV, TypeOptions, TypeSet};

pub mod append;
pub mod counts;
pub mod family;
pub mod fill;
pub mod infinite;
pub mod lineflag;
pub mod types;

verus! {

/// One count-resolved entry (Pass A output).
#[derive(Debug)]
pub struct ExpandedEntry {
    /// Full Plover key, e.g. `STKWR-PBGS/AOFLT`.
    pub stroke: String,
    /// Count-resolved chunks: no repeat/dcount/computed remain.
    pub template: Vec<Chunk>,
    /// The count value, or None for a non-count entry.
    pub count: Option<u32>,
    /// The parsed entry this expansion came from.
    pub source: Entry,
}

/// Model of a count-resolved entry.
pub struct ExpandedV {
    pub stroke: Seq<char>,
    pub template: Seq<ChunkV>,
    pub count: Option<u32>,
    pub source: EntryV,
}

/// The model of a count-resolved entry.
pub open spec fn expanded_view(e: ExpandedEntry) -> ExpandedV {
    ExpandedV { stroke: e.stroke@, template: cv(&e.template), count: e.count, source: entry_view(e.source) }
}

/// The models of a sequence of count-resolved entries.
pub open spec fn expandeds_view(v: Seq<ExpandedEntry>) -> Seq<ExpandedV> {
    v.map_values(|e: ExpandedEntry| expanded_view(e))
}

/// One fully expanded entry (Pass B output), ready for rendering.
#[derive(Debug)]
pub struct TypedEntry {
    /// Full Plover key including any appended type strokes.
    pub stroke: String,
    /// Template with every type slot resolved.
    pub template: Vec<Chunk>,
    /// False = non-terminal step (later passes drop bracing and skip
    /// movement).
    pub terminal: bool,
    /// True = the U one-liner variant (every `%b` collapses instead of
    /// breaking).
    pub one_liner: bool,
    /// The count value, or None for a non-count entry.
    pub count: Option<u32>,
    /// The rendered text of the type appended last, if any.
    pub type_label: Option<String>,
    /// The parsed entry this expansion came from.
    pub source: Entry,
}

/// Model of a fully expanded entry.
pub struct TypedV {
    pub stroke: Seq<char>,
    pub template: Seq<ChunkV>,
    pub terminal: bool,
    pub one_liner: bool,
    pub count: Option<u32>,
    pub type_label: Option<Seq<char>>,
    pub source: EntryV,
}

/// The model of a fully expanded entry.
pub open spec fn typed_view(e: TypedEntry) -> TypedV {
    TypedV {
        stroke: e.stroke@,
        template: cv(&e.template),
        terminal: e.terminal,
        one_liner: e.one_liner,
        count: e.count,
        type_label: opt_view(e.type_label),
        source: entry_view(e.source),
    }
}

/// The models of a sequence of fully expanded entries.
pub open spec fn typeds_view(v: Seq<TypedEntry>) -> Seq<TypedV> {
    v.map_values(|e: TypedEntry| typed_view(e))
}

impl TypedEntry {
    /// A deep copy of this entry.
    pub fn copy(&self) -> (r: TypedEntry)
        ensures
            typed_view(r) == typed_view(*self),
    {
        TypedEntry {
            stroke: crate::text::copy_str(self.stroke.as_str()),
            template: crate::parse::copy_chunks(&self.template),
            terminal: self.terminal,
            one_liner: self.one_liner,
            count: self.count,
            type_label: crate::parse::copy_opt(&self.type_label),
            source: self.source.copy(),
        }
    }
}


/// The pool types whose stroke is listed in `ss`, in order.
pub open spec fn keep_listed(ts: Seq<TypeDefV>, ss: Seq<Seq<char>>) -> Seq<TypeDefV>
    decreases ts.len(),
{
    if ts.len() == 0 {
        Seq::empty()
    } else {
        let prev = keep_listed(ts.drop_last(), ss);
        if ss.contains(ts.last().stroke) {
            prev.push(ts.last())
        } else {
            prev
        }
    }
}

/// The generic-argument pool: the arity-0 set, restricted to the listed
/// strokes when a list is given.
pub open spec fn pool_spec(arity0: Seq<TypeDefV>, strokes: Option<Seq<Seq<char>>>) -> Seq<TypeDefV> {
    match strokes {
        None => arity0,
        Some(ss) => keep_listed(arity0, ss),
    }
}

/// Pass A then Pass B over every non-`@type` entry, concatenated in order.
pub open spec fn dict_typed_spec(es: Seq<EntryV>, ts: Seq<TypeDefV>, pool: Seq<TypeDefV>) -> Option<Seq<TypedV>>
    decreases es.len(),
{
    if es.len() == 0 {
        Some(Seq::empty())
    } else {
        match dict_typed_spec(es.drop_last(), ts, pool) {
            None => None,
            Some(prev) => {
                let e = es.last();
                if e.flags.has(IS_TYPE) {
                    Some(prev)
                } else {
                    match expand_counts_spec(e) {
                        None => None,
                        Some(xs) => match expand_types_spec(xs, ts, pool) {
                            None => None,
                            Some(ys) => Some(prev + ys),
                        },
                    }
                }
            },
        }
    }
}

/// Every entry with the family-root fixup applied.
pub open spec fn family_fixed(es: Seq<TypedV>) -> Seq<TypedV> {
    Seq::new(es.len(), |i: int| fixed_entry(es[i], roots_spec(es)))
}

/// The full expansion of a parsed dictionary: type set, Pass A + Pass B,
/// family fixup, then one-liner variants.
pub open spec fn expand_dict_spec(es: Seq<EntryV>, strokes: Option<Seq<Seq<char>>>) -> Option<Seq<TypedV>> {
    match type_defs_spec(es) {
        None => None,
        Some(ts) => {
            let pool = pool_spec(arity0_spec(ts, no_arg_strokes(es)), strokes);
            match dict_typed_spec(es, ts, pool) {
                None => None,
                Some(typed) => line_flag_spec(family_fixed(typed)),
            }
        },
    }
}

/// `m` says why Pass A + Pass B fail on a dictionary: at the first entry
/// that fails, its count expansion's error, else its type-append's.
pub open spec fn dict_typed_error(es: Seq<EntryV>, ts: Seq<TypeDefV>, pool: Seq<TypeDefV>, m: Seq<char>) -> bool
    decreases es.len(),
{
    if es.len() == 0 {
        false
    } else if dict_typed_spec(es.drop_last(), ts, pool) is None {
        dict_typed_error(es.drop_last(), ts, pool, m)
    } else {
        let e = es.last();
        match expand_counts_spec(e) {
            None => m == expand_counts_error(e),
            Some(xs) => types_error(xs, ts, pool, m),
        }
    }
}

/// `m` says why the full expansion fails: the type set's error, else the
/// first entry's Pass A/B error, else the one-liner variants' error.
pub open spec fn expand_dict_error(es: Seq<EntryV>, strokes: Option<Seq<Seq<char>>>, m: Seq<char>) -> bool {
    match type_defs_spec(es) {
        None => m == type_defs_error(es),
        Some(ts) => {
            let pool = pool_spec(arity0_spec(ts, no_arg_strokes(es)), strokes);
            match dict_typed_spec(es, ts, pool) {
                None => dict_typed_error(es, ts, pool, m),
                Some(typed) => m == line_flag_error(family_fixed(typed)),
            }
        },
    }
}

/// The models of a list of strokes.
pub open spec fn stroke_list_view(v: Seq<&str>) -> Seq<Seq<char>> {
    v.map_values(|s: &str| s@)
}

/// `v` lists a stroke equal to `s`.
fn listed(v: &[&str], s: &str) -> (b: bool)
    ensures
        b == stroke_list_view(v@).contains(s@),
{
    let mut i: usize = 0;
    while i < v.len()
        invariant
            i <= v@.len(),
            forall|j: int| 0 <= j < i ==> stroke_list_view(v@)[j] != s@,
        decreases v.len() - i,
    {
        if crate::text::str_eq(v[i], s) {
            assert(stroke_list_view(v@)[i as int] == s@);
            return true;
        }
        i = i + 1;
    }
    false
}

/// A failing prefix fixes why the dictionary fails.
proof fn lemma_dict_error(es: Seq<EntryV>, ts: Seq<TypeDefV>, pool: Seq<TypeDefV>, j: int, m: Seq<char>)
    requires
        0 <= j <= es.len(),
        dict_typed_spec(es.take(j), ts, pool) is None,
        dict_typed_error(es.take(j), ts, pool, m),
    ensures
        dict_typed_error(es, ts, pool, m),
    decreases es.len() - j,
{
    if j < es.len() {
        assert(es.take(j + 1).drop_last() == es.take(j));
        lemma_dict_error(es, ts, pool, j + 1, m);
    } else {
        assert(es.take(j) == es);
    }
}

/// A failing prefix makes the whole dictionary fail.
proof fn lemma_dict_none(es: Seq<EntryV>, ts: Seq<TypeDefV>, pool: Seq<TypeDefV>, j: int)
    requires
        0 <= j <= es.len(),
        dict_typed_spec(es.take(j), ts, pool) is None,
    ensures
        dict_typed_spec(es, ts, pool) is None,
    decreases es.len() - j,
{
    if j < es.len() {
        assert(es.take(j + 1).drop_last() == es.take(j));
        lemma_dict_none(es, ts, pool, j + 1);
    } else {
        assert(es.take(j) == es);
    }
}

/// Pass B over the expansions of one entry.
fn types_of_all(xs: &Vec<ExpandedEntry>, opts: &TypeOptions, out: &mut Vec<TypedEntry>) -> (r: Result<(), ExpandError>)
    ensures
        match expand_types_spec(expandeds_view(xs@), typedefs_view(opts.types@), typedefs_view(opts.generic_args@)) {
            Some(ys) => r is Ok && typeds_view(final(out)@) == typeds_view(old(out)@) + ys,
            None => r matches Err(e) && types_error(
                expandeds_view(xs@),
                typedefs_view(opts.types@),
                typedefs_view(opts.generic_args@),
                e.spec_message(),
            ),
        },
{
    match append::expand_types(xs.as_slice(), opts) {
        Ok(mut v) => {
            let ghost a = out@;
            let ghost b = v@;
            out.append(&mut v);
            proof {
                assert(typeds_view(out@) =~= typeds_view(a) + typeds_view(b));
            }
            Ok(())
        },
        Err(e) => Err(e),
    }
}

/// Full Pass A + Pass B + line-flag over a parsed dictionary.
///
/// `@type` entries become the append set (consumed, not emitted); generic
/// args use the full arity-0 pool unless `generic_arg_strokes` restricts it.
/// Fails on any count/type misconfiguration or stroke arithmetic failure.
#[verifier::loop_isolation(false)]
pub fn expand_dict(entries: &[Entry], generic_arg_strokes: Option<&[&str]>) -> (r: Result<Vec<TypedEntry>, ExpandError>)
    ensures
        match expand_dict_spec(
            entries_view(entries@),
            match generic_arg_strokes {
                Some(ss) => Some(stroke_list_view(ss@)),
                None => None,
            },
        ) {
            Some(s) => r matches Ok(v) && typeds_view(v@) == s,
            None => r matches Err(e) && expand_dict_error(
                entries_view(entries@),
                match generic_arg_strokes {
                    Some(ss) => Some(stroke_list_view(ss@)),
                    None => None,
                },
                e.spec_message(),
            ),
        },
{
    let ghost es = entries_view(entries@);
    let ghost strokes = match generic_arg_strokes {
        Some(ss) => Some(stroke_list_view(ss@)),
        None => None,
    };
    let set = match build_type_set(entries) {
        Ok(s) => s,
        Err(e) => {
            return Err(e);
        },
    };
    let TypeSet { types, arity0 } = set;
    let ghost ts = typedefs_view(types@);
    let ghost a0 = typedefs_view(arity0@);
    let mut pool: Vec<TypeDef> = Vec::new();
    let mut k: usize = 0;
    assert(a0.take(0) == Seq::<TypeDefV>::empty());
    while k < arity0.len()
        invariant
            k <= arity0@.len(),
            a0 == typedefs_view(arity0@),
            typedefs_view(pool@) == match generic_arg_strokes {
                Some(ss) => keep_listed(a0.take(k as int), stroke_list_view(ss@)),
                None => a0.take(k as int),
            },
        decreases arity0.len() - k,
    {
        let t = &arity0[k];
        proof {
            assert(a0.take(k + 1).drop_last() == a0.take(k as int));
            assert(a0.take(k + 1).last() == typedef_view(*t));
        }
        let keep = match generic_arg_strokes {
            Some(ss) => listed(ss, t.stroke.as_str()),
            None => true,
        };
        if keep {
            let ghost before = pool@;
            let c = t.copy();
            pool.push(c);
            proof {
                assert(typedefs_view(pool@) == typedefs_view(before).push(typedef_view(c)));
            }
        }
        k = k + 1;
    }
    assert(a0.take(k as int) == a0);
    let opts = TypeOptions { types, generic_args: pool };
    let ghost pv = typedefs_view(opts.generic_args@);
    assert(pv == pool_spec(a0, strokes));
    let mut typed: Vec<TypedEntry> = Vec::new();
    let mut i: usize = 0;
    assert(es.take(0) == Seq::<EntryV>::empty());
    while i < entries.len()
        invariant
            i <= entries@.len(),
            es == entries_view(entries@),
            ts == typedefs_view(opts.types@),
            pv == typedefs_view(opts.generic_args@),
            type_defs_spec(es) == Some(ts),
            pv == pool_spec(arity0_spec(ts, no_arg_strokes(es)), strokes),
            dict_typed_spec(es.take(i as int), ts, pv) == Some(typeds_view(typed@)),
        decreases entries.len() - i,
    {
        let e = &entries[i];
        proof {
            assert(es.take(i + 1).drop_last() == es.take(i as int));
            assert(es.take(i + 1).last() == entry_view(*e));
        }
        if !e.flags.is_type() {
            let xs = match expand_counts(e) {
                Ok(xs) => xs,
                Err(er) => {
                    proof {
                        lemma_dict_none(es, ts, pv, i + 1);
                        lemma_dict_error(es, ts, pv, i + 1, er.spec_message());
                    }
                    return Err(er);
                },
            };
            match types_of_all(&xs, &opts, &mut typed) {
                Ok(()) => {},
                Err(er) => {
                    proof {
                        lemma_dict_none(es, ts, pv, i + 1);
                        lemma_dict_error(es, ts, pv, i + 1, er.spec_message());
                    }
                    return Err(er);
                },
            }
        }
        i = i + 1;
    }
    assert(es.take(i as int) == es);
    let ghost tv = typeds_view(typed@);
    fix_family_terminals(&mut typed);
    proof {
        assert(typeds_view(typed@) =~= family_fixed(tv));
    }
    expand_line_flag(&typed)
}

} // verus!
