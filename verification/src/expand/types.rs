//! Type definitions for Pass B: the append set collected from `@type`
//! entries.
use vstd::prelude::*;
use crate::error::ExpandError;
use crate::parse::source::{entry_view, entries_view, EntryV};
use crate::parse::{strs_view, chunk_kind, cv, lemma_cv, Chunk, ChunkV, Entry, IS_TYPE, NO_ARG};
use crate::text::{concat3, copy_str, push_str, str_eq};

verus! {

broadcast use vstd::seq_lib::group_seq_properties;

/// One appendable type from a `@type` entry.
#[derive(Debug)]
pub struct TypeDef {
    /// The type's own stroke, e.g. `TPH`.
    pub stroke: String,
    /// Generic-argument count (0 = concrete type).
    pub arity: u32,
    /// Rendered text with `%t` arg markers, e.g. "string" or "Map<%t, %t>".
    pub text: String,
    /// Empty type (SKP): a free/custom type — leaves `: ` and a tabstop to
    /// type by hand.
    pub free_type: bool,
}

/// Model of a type definition.
pub struct TypeDefV {
    pub stroke: Seq<char>,
    pub arity: u32,
    pub text: Seq<char>,
    pub free_type: bool,
}

/// The model of a type definition.
pub open spec fn typedef_view(t: TypeDef) -> TypeDefV {
    TypeDefV { stroke: t.stroke@, arity: t.arity, text: t.text@, free_type: t.free_type }
}

/// The models of a sequence of type definitions.
pub open spec fn typedefs_view(v: Seq<TypeDef>) -> Seq<TypeDefV> {
    v.map_values(|t: TypeDef| typedef_view(t))
}

impl TypeDef {
    /// A copy of this type definition.
    pub fn copy(&self) -> (r: TypeDef)
        ensures
            typedef_view(r) == typedef_view(*self),
    {
        TypeDef { stroke: copy_str(self.stroke.as_str()), arity: self.arity, text: copy_str(self.text.as_str()), free_type: self.free_type }
    }
}

/// The append set available to `%t` slots.
#[derive(Debug)]
pub struct TypeOptions {
    /// Top-level types a `%t` may take (all of them, generics included).
    pub types: Vec<TypeDef>,
    /// Types usable as a generic's argument (arity-0 only; no nesting).
    pub generic_args: Vec<TypeDef>,
}

/// The collected `@type` entries: the full set plus the arity-0 pool.
#[derive(Debug)]
pub struct TypeSet {
    /// Every `@type` entry as a [`TypeDef`].
    pub types: Vec<TypeDef>,
    /// Arity-0 concrete types realistic as generic arguments.
    pub arity0: Vec<TypeDef>,
}

/// The text of a `@type` template: literals verbatim and `%t` markers;
/// `None` when any other chunk occurs.
pub open spec fn type_text_spec(cs: Seq<ChunkV>) -> Option<Seq<char>>
    decreases cs.len(),
{
    if cs.len() == 0 {
        Some(Seq::empty())
    } else {
        match type_text_spec(cs.drop_last()) {
            None => None,
            Some(prev) => match cs.last() {
                ChunkV::Lit(s) => Some(prev + s),
                ChunkV::TypeSlot => Some(prev + seq!['%', 't']),
                _ => None,
            },
        }
    }
}

/// Why a `@type` template has no text: its first chunk that is neither a
/// literal nor `%t`, named after `subject`.
pub open spec fn type_text_error(cs: Seq<ChunkV>, subject: Seq<char>) -> Seq<char>
    decreases cs.len(),
{
    if cs.len() == 0 {
        Seq::empty()
    } else if type_text_spec(cs.drop_last()) is None {
        type_text_error(cs.drop_last(), subject)
    } else {
        subject + " has an unexpected chunk \""@ + chunk_kind(cs.last()) + "\""@
    }
}

/// A failing prefix fixes why the template has no text.
proof fn lemma_type_text_error(cs: Seq<ChunkV>, subject: Seq<char>, i: int)
    requires
        0 <= i <= cs.len(),
        type_text_spec(cs.take(i)) is None,
    ensures
        type_text_spec(cs) is None,
        type_text_error(cs, subject) == type_text_error(cs.take(i), subject),
    decreases cs.len() - i,
{
    if i < cs.len() {
        assert(cs.take(i + 1).drop_last() == cs.take(i));
        lemma_type_text_error(cs, subject, i + 1);
    } else {
        assert(cs.take(i) == cs);
    }
}

/// Render a `@type` entry's template to its text form (only literals and
/// `%t` markers are legal).
pub fn render_type_text(template: &Vec<Chunk>) -> (r: Result<String, ExpandError>)
    ensures
        match type_text_spec(cv(template)) {
            Some(t) => r matches Ok(s) && s@ == t,
            None => r matches Err(e) && e.spec_message() == type_text_error(cv(template), "@type entry"@),
        },
{
    type_text_for(template, "@type entry")
}

/// [`render_type_text`], naming the entry as `subject` in the error.
pub(crate) fn type_text_for(template: &Vec<Chunk>, subject: &str) -> (r: Result<String, ExpandError>)
    ensures
        match type_text_spec(cv(template)) {
            Some(t) => r matches Ok(s) && s@ == t,
            None => r matches Err(e) && e.spec_message() == type_text_error(cv(template), subject@),
        },
{
    let ghost cs = cv(template);
    proof {
        lemma_cv(template);
        assert(cs.take(0) == Seq::<ChunkV>::empty());
    }
    let mut out = String::new();
    let mut i: usize = 0;
    while i < template.len()
        invariant
            cs == cv(template),
            cs.len() == template@.len(),
            forall|j: int| 0 <= j < template@.len() ==> #[trigger] cs[j] == template@[j]@,
            i <= template@.len(),
            type_text_spec(cs.take(i as int)) == Some(out@),
        decreases template.len() - i,
    {
        proof {
            assert(cs.take(i + 1).drop_last() == cs.take(i as int));
            assert(cs.take(i + 1).last() == cs[i as int]);
        }
        match &template[i] {
            Chunk::Lit(text) => push_str(&mut out, text.as_str()),
            Chunk::TypeSlot => push_str(&mut out, "%t"),
            other => {
                proof {
                    reveal_strlit("%t");
                    lemma_type_text_error(cs, subject@, i + 1);
                }
                let mut m = concat3(subject, " has an unexpected chunk \"", other.kind_name());
                push_str(&mut m, "\"");
                return Err(ExpandError::new(m));
            },
        }
        proof {
            reveal_strlit("%t");
        }
        i = i + 1;
    }
    proof {
        assert(cs.take(i as int) == cs);
    }
    Ok(out)
}

/// The type definitions of the `@type` entries, in order.
pub open spec fn type_defs_spec(es: Seq<EntryV>) -> Option<Seq<TypeDefV>>
    decreases es.len(),
{
    if es.len() == 0 {
        Some(Seq::empty())
    } else {
        match type_defs_spec(es.drop_last()) {
            None => None,
            Some(prev) => {
                let e = es.last();
                if !e.flags.has(IS_TYPE) {
                    Some(prev)
                } else {
                    match type_text_spec(e.template) {
                        None => None,
                        Some(t) => Some(
                            prev.push(
                                TypeDefV {
                                    stroke: e.stroke_raw,
                                    arity: match e.arity {
                                        Some(a) => a,
                                        None => 0,
                                    },
                                    text: t,
                                    free_type: t.len() == 0,
                                },
                            ),
                        ),
                    }
                }
            },
        }
    }
}

/// The strokes of the `@type` entries marked `@noarg`.
pub open spec fn no_arg_strokes(es: Seq<EntryV>) -> Seq<Seq<char>>
    decreases es.len(),
{
    if es.len() == 0 {
        Seq::empty()
    } else {
        let prev = no_arg_strokes(es.drop_last());
        let e = es.last();
        if e.flags.has(IS_TYPE) && e.flags.has(NO_ARG) {
            prev.push(e.stroke_raw)
        } else {
            prev
        }
    }
}

/// A type usable as a generic argument: concrete, not free, not `@noarg`.
pub open spec fn arity0_ok(t: TypeDefV, no_arg: Seq<Seq<char>>) -> bool {
    t.arity == 0 && !t.free_type && !no_arg.contains(t.stroke)
}

/// The generic-argument pool drawn from `ts`, in order.
pub open spec fn arity0_spec(ts: Seq<TypeDefV>, no_arg: Seq<Seq<char>>) -> Seq<TypeDefV>
    decreases ts.len(),
{
    if ts.len() == 0 {
        Seq::empty()
    } else {
        let prev = arity0_spec(ts.drop_last(), no_arg);
        if arity0_ok(ts.last(), no_arg) {
            prev.push(ts.last())
        } else {
            prev
        }
    }
}

/// Why the `@type` entries do not all yield type definitions: the first
/// whose template has no text.
pub open spec fn type_defs_error(es: Seq<EntryV>) -> Seq<char>
    decreases es.len(),
{
    if es.len() == 0 {
        Seq::empty()
    } else if type_defs_spec(es.drop_last()) is None {
        type_defs_error(es.drop_last())
    } else {
        type_text_error(es.last().template, "@type entry"@)
    }
}

/// A failing prefix fixes why the type definitions fail.
proof fn lemma_type_defs_error(es: Seq<EntryV>, i: int)
    requires
        0 <= i <= es.len(),
        type_defs_spec(es.take(i)) is None,
    ensures
        type_defs_spec(es) is None,
        type_defs_error(es) == type_defs_error(es.take(i)),
    decreases es.len() - i,
{
    if i < es.len() {
        assert(es.take(i + 1).drop_last() == es.take(i));
        lemma_type_defs_error(es, i + 1);
    } else {
        assert(es.take(i) == es);
    }
}

/// `v` holds a string equal to `s`.
fn contains_str(v: &Vec<String>, s: &str) -> (b: bool)
    ensures
        b == strs_view(v@).contains(s@),
{
    let ghost m = strs_view(v@);
    let mut i: usize = 0;
    while i < v.len()
        invariant
            i <= v@.len(),
            m == strs_view(v@),
            forall|j: int| 0 <= j < i ==> m[j] != s@,
        decreases v.len() - i,
    {
        if str_eq(v[i].as_str(), s) {
            assert(m[i as int] == s@);
            return true;
        }
        i = i + 1;
    }
    false
}

/// Collect the `@type` entries into the append set (full set + arity-0
/// pool).
///
/// Fails when a `@type` template contains anything besides literals and
/// `%t` markers.
pub fn build_type_set(entries: &[Entry]) -> (r: Result<TypeSet, ExpandError>)
    ensures
        match type_defs_spec(entries_view(entries@)) {
            Some(ts) => r matches Ok(set) && typedefs_view(set.types@) == ts && typedefs_view(set.arity0@)
                == arity0_spec(ts, no_arg_strokes(entries_view(entries@))),
            None => r matches Err(e) && e.spec_message() == type_defs_error(entries_view(entries@)),
        },
{
    let ghost es = entries_view(entries@);
    let mut types: Vec<TypeDef> = Vec::new();
    let mut no_arg: Vec<String> = Vec::new();
    let mut i: usize = 0;
    assert(es.take(0) == Seq::<EntryV>::empty());
    while i < entries.len()
        invariant
            es == entries_view(entries@),
            i <= entries@.len(),
            type_defs_spec(es.take(i as int)) == Some(typedefs_view(types@)),
            strs_view(no_arg@) == no_arg_strokes(es.take(i as int)),
        decreases entries.len() - i,
    {
        let e = &entries[i];
        proof {
            assert(es.take(i + 1).drop_last() == es.take(i as int));
            assert(es.take(i + 1).last() == entry_view(*e));
        }
        if e.flags.is_type() {
            let text = match render_type_text(&e.template) {
                Ok(t) => t,
                Err(er) => {
                    proof {
                        lemma_type_defs_error(es, i + 1);
                    }
                    return Err(er);
                },
            };
            let free = text.as_str().is_empty();
            let arity = match e.arity {
                Some(a) => a,
                None => 0,
            };
            let ghost before = types@;
            let t = TypeDef { stroke: copy_str(e.stroke_raw.as_str()), arity, free_type: free, text };
            types.push(t);
            proof {
                assert(typedefs_view(types@) == typedefs_view(before).push(typedef_view(t)));
            }
            if e.flags.no_arg() {
                let ghost nb = no_arg@;
                no_arg.push(copy_str(e.stroke_raw.as_str()));
                proof {
                    assert(strs_view(no_arg@) == nb.map_values(|x: String| x@).push(e.stroke_raw@));
                }
            }
        }
        i = i + 1;
    }
    proof {
        assert(es.take(i as int) == es);
    }
    let ghost na = no_arg_strokes(es);
    let ghost tv = typedefs_view(types@);
    let mut arity0: Vec<TypeDef> = Vec::new();
    let mut j: usize = 0;
    assert(tv.take(0) == Seq::<TypeDefV>::empty());
    while j < types.len()
        invariant
            j <= types@.len(),
            tv == typedefs_view(types@),
            na == strs_view(no_arg@),
            typedefs_view(arity0@) == arity0_spec(tv.take(j as int), na),
        decreases types.len() - j,
    {
        let t = &types[j];
        proof {
            assert(tv.take(j + 1).drop_last() == tv.take(j as int));
            assert(tv.take(j + 1).last() == typedef_view(*t));
        }
        if t.arity == 0 && !t.free_type && !contains_str(&no_arg, t.stroke.as_str()) {
            let ghost before = arity0@;
            let c = t.copy();
            arity0.push(c);
            proof {
                assert(typedefs_view(arity0@) == typedefs_view(before).push(typedef_view(c)));
            }
        }
        j = j + 1;
    }
    proof {
        assert(tv.take(j as int) == tv);
    }
    Ok(TypeSet { types, arity0 })
}

} // verus!
