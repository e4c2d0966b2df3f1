//! Type-filling machinery for Pass B: enumerating append steps and
//! substituting rendered type text into templates.
use vstd::prelude::*;
use super::counts::landing_max;
use super::types::{typedef_view, typedefs_view, TypeDef, TypeDefV, TypeOptions};
use crate::editor::serialize::join_space;
use crate::parse::{strs_view, chunks_view, cv, lemma_chunks_view, lemma_cv, Chunk, ChunkV};
use crate::stroke::keys::{first_where, lemma_first_where_unique};
use crate::text::{chars_of, copy_str, push_chars, push_str};

verus! {

broadcast use vstd::seq_lib::group_seq_properties, lemma_chunks_view;

/// Index of the first `%t` marker in `s` (its length when there is none).
pub open spec fn marker_pos(s: Seq<char>) -> int
    decreases s.len(),
{
    if s.len() < 2 {
        s.len() as int
    } else if s[0] == '%' && s[1] == 't' {
        0
    } else {
        1 + marker_pos(s.drop_first())
    }
}

/// The `k`-th argument, or nothing when missing.
pub open spec fn arg_at(args: Seq<Seq<char>>, k: int) -> Seq<char> {
    if 0 <= k < args.len() {
        args[k]
    } else {
        Seq::empty()
    }
}

/// `s` with its `%t` markers replaced by `args[k]`, `args[k + 1]`, ... in
/// order.
pub open spec fn render_from(s: Seq<char>, args: Seq<Seq<char>>, k: int) -> Seq<char>
    decreases s.len(),
{
    let q = marker_pos(s);
    if q < 0 || q + 2 > s.len() {
        s
    } else {
        s.take(q) + arg_at(args, k) + render_from(s.skip(q + 2), args, k + 1)
    }
}

/// A type's text with `args` substituted into its `%t` markers (missing
/// arguments render empty).
pub open spec fn render_type_spec(text: Seq<char>, args: Seq<Seq<char>>) -> Seq<char> {
    render_from(text, args, 0)
}

/// The bracketless head of a type's text ("Map" from "Map<%t, %t>").
pub open spec fn type_head_spec(text: Seq<char>) -> Seq<char> {
    text.take(first_where(text, |c: char| c == '<'))
}

/// The bracketless partial form: "Map" or "Map string".
pub open spec fn partial_type_spec(text: Seq<char>, args: Seq<Seq<char>>) -> Seq<char> {
    if args.len() == 0 {
        type_head_spec(text)
    } else {
        type_head_spec(text) + seq![' '] + join_space(args)
    }
}

proof fn lemma_marker_pos(s: Seq<char>)
    ensures
        0 <= marker_pos(s) <= s.len(),
    decreases s.len(),
{
    if s.len() >= 2 && !(s[0] == '%' && s[1] == 't') {
        lemma_marker_pos(s.drop_first());
    }
}

proof fn lemma_render_plain(t: Seq<char>, args: Seq<Seq<char>>, k: int)
    requires
        t.len() >= 1,
        !(t.len() >= 2 && t[0] == '%' && t[1] == 't'),
    ensures
        render_from(t, args, k) == seq![t[0]] + render_from(t.skip(1), args, k),
{
    let u = t.skip(1);
    lemma_marker_pos(u);
    if t.len() == 1 {
        assert(u.len() == 0);
        assert(render_from(u, args, k) == u);
        assert(t == seq![t[0]] + u);
    } else {
        assert(u == t.drop_first());
        let q = marker_pos(u);
        if q < 0 || q + 2 > u.len() {
            assert(t == seq![t[0]] + u);
        } else {
            assert(t.skip(q + 3) == u.skip(q + 2));
            assert(t.take(q + 1) == seq![t[0]] + u.take(q));
        }
    }
}

proof fn lemma_render_marker(t: Seq<char>, args: Seq<Seq<char>>, k: int)
    requires
        t.len() >= 2,
        t[0] == '%',
        t[1] == 't',
    ensures
        render_from(t, args, k) == arg_at(args, k) + render_from(t.skip(2), args, k + 1),
{
    assert(t.take(0) == Seq::<char>::empty());
}

/// Substitute `args` into the type text's `%t` markers (missing args ->
/// empty).
#[verifier::rlimit(40)]
pub fn render_type(text: &str, args: &Vec<String>) -> (r: String)
    ensures
        r@ == render_type_spec(text@, strs_view(args@)),
{
    let ghost av = strs_view(args@);
    let c = chars_of(text);
    let n = c.len();
    let mut out = String::new();
    let mut i: usize = 0;
    let mut k: usize = 0;
    assert(c@.skip(0) == c@);
    while i < n
        invariant
            n == c@.len(),
            c@ == text@,
            av == strs_view(args@),
            i <= n,
            k <= i,
            render_type_spec(text@, av) == out@ + render_from(c@.skip(i as int), av, k as int),
        decreases n - i,
    {
        let ghost t = c@.skip(i as int);
        if i + 1 < n && c[i] == '%' && c[i + 1] == 't' {
            proof {
                lemma_render_marker(t, av, k as int);
                assert(t.skip(2) == c@.skip(i + 2));
            }
            let ghost o0 = out@;
            if k < args.len() {
                push_str(&mut out, args[k].as_str());
            }
            proof {
                assert(out@ == o0 + arg_at(av, k as int));
            }
            i = i + 2;
            k = k + 1;
        } else {
            proof {
                lemma_render_plain(t, av, k as int);
                assert(t.skip(1) == c@.skip(i + 1));
            }
            out.push(c[i]);
            i = i + 1;
        }
    }
    proof {
        assert(c@.skip(i as int).len() == 0);
        assert(render_from(c@.skip(i as int), av, k as int) == c@.skip(i as int));
    }
    out
}

/// The bracketless head of a type ("Map" from "Map<%t, %t>").
fn type_head(text: &str) -> (r: String)
    ensures
        r@ == type_head_spec(text@),
{
    let c = chars_of(text);
    let mut i: usize = 0;
    while i < c.len() && c[i] != '<'
        invariant
            i <= c@.len(),
            forall|j: int| 0 <= j < i ==> c@[j] != '<',
        decreases c.len() - i,
    {
        i = i + 1;
    }
    proof {
        assert forall|j: int| 0 <= j < i implies !((|ch: char| ch == '<')(#[trigger] c@[j])) by {}
        lemma_first_where_unique(c@, |ch: char| ch == '<', i as int);
    }
    let mut r = String::new();
    push_chars(&mut r, c.as_slice(), 0, i);
    assert(c@.subrange(0, i as int) == c@.take(i as int));
    r
}

/// Append `args` joined by single spaces.
fn push_joined(out: &mut String, args: &Vec<String>)
    ensures
        final(out)@ == old(out)@ + join_space(strs_view(args@)),
{
    let ghost av = strs_view(args@);
    let ghost o0 = out@;
    let mut i: usize = 0;
    while i < args.len()
        invariant
            i <= args@.len(),
            av == strs_view(args@),
            out@ == o0 + join_space(av.take(i as int)),
        decreases args.len() - i,
    {
        if i > 0 {
            out.push(' ');
        }
        push_str(out, args[i].as_str());
        proof {
            let t = av.take(i + 1);
            assert(t.drop_last() == av.take(i as int));
            assert(t.last() == args@[i as int]@);
            if i == 0 {
                assert(av.take(0) == Seq::<Seq<char>>::empty());
            }
        }
        i = i + 1;
    }
    assert(av.take(i as int) == av);
}

/// The bracketless partial form: "Map" or "Map string".
pub fn partial_type(text: &str, args: &Vec<String>) -> (r: String)
    ensures
        r@ == partial_type_spec(text@, strs_view(args@)),
{
    let mut r = type_head(text);
    if args.len() > 0 {
        r.push(' ');
        push_joined(&mut r, args);
    }
    r
}

/// One step of a type-append chain: the strokes to append, the rendered type
/// text so far, and whether the step terminates the entry.
pub struct Filling {
    /// Appended stroke segments, in order.
    pub suffix: Vec<String>,
    /// Rendered type text for this step.
    pub text: String,
    /// True when the chain is complete at this step.
    pub terminal: bool,
    /// True for the free/custom (SKP) type.
    pub free_type: bool,
}

/// Model of an append step.
pub struct FillingV {
    pub suffix: Seq<Seq<char>>,
    pub text: Seq<char>,
    pub terminal: bool,
    pub free_type: bool,
}

/// The model of an append step.
pub open spec fn filling_view(f: Filling) -> FillingV {
    FillingV { suffix: strs_view(f.suffix@), text: f.text@, terminal: f.terminal, free_type: f.free_type }
}

/// The models of a sequence of append steps.
pub open spec fn fillings_view(v: Seq<Filling>) -> Seq<FillingV> {
    v.map_values(|f: Filling| filling_view(f))
}

/// The steps that fill the arguments of generic `t` after `suffix`/`args`,
/// for the first `j` pool types at this level: each choice is a terminal
/// step once all `t.arity` arguments are present, otherwise a partial step
/// followed by every continuation.
pub open spec fn fill_args_spec(t: TypeDefV, suffix: Seq<Seq<char>>, args: Seq<Seq<char>>, pool: Seq<TypeDefV>, j: nat) -> Seq<FillingV>
    decreases t.arity - args.len(), j,
{
    if j == 0 || j > pool.len() {
        Seq::empty()
    } else {
        let prev = fill_args_spec(t, suffix, args, pool, (j - 1) as nat);
        let a = pool[j - 1];
        let sfx = suffix.push(a.stroke);
        let ar = args.push(render_type_spec(a.text, Seq::empty()));
        if ar.len() == t.arity {
            prev.push(FillingV { suffix: sfx, text: render_type_spec(t.text, ar), terminal: true, free_type: false })
        } else {
            let step = FillingV { suffix: sfx, text: partial_type_spec(t.text, ar), terminal: false, free_type: false };
            if ar.len() < t.arity {
                prev.push(step) + fill_args_spec(t, sfx, ar, pool, pool.len())
            } else {
                prev.push(step)
            }
        }
    }
}

/// The steps one top-level type contributes.
pub open spec fn type_fillings(t: TypeDefV, pool: Seq<TypeDefV>) -> Seq<FillingV> {
    if t.free_type {
        seq![FillingV { suffix: seq![t.stroke], text: Seq::empty(), terminal: true, free_type: true }]
    } else if t.arity == 0 {
        seq![FillingV { suffix: seq![t.stroke], text: render_type_spec(t.text, Seq::empty()), terminal: true, free_type: false }]
    } else {
        seq![FillingV { suffix: seq![t.stroke], text: partial_type_spec(t.text, Seq::empty()), terminal: false, free_type: false }]
            + fill_args_spec(t, seq![t.stroke], Seq::empty(), pool, pool.len())
    }
}

/// Every append step reachable from the type set, in order.
pub open spec fn fillings_spec(types: Seq<TypeDefV>, pool: Seq<TypeDefV>) -> Seq<FillingV>
    decreases types.len(),
{
    if types.len() == 0 {
        Seq::empty()
    } else {
        fillings_spec(types.drop_last(), pool) + type_fillings(types.last(), pool)
    }
}

/// A copy of a vector of strings with one more string at the end.
fn pushed(v: &Vec<String>, s: String) -> (r: Vec<String>)
    ensures
        strs_view(r@) == strs_view(v@).push(s@),
{
    let mut r: Vec<String> = Vec::new();
    let mut i: usize = 0;
    while i < v.len()
        invariant
            i <= v@.len(),
            strs_view(r@) == strs_view(v@).take(i as int),
        decreases v.len() - i,
    {
        let ghost b = r@;
        r.push(copy_str(v[i].as_str()));
        proof {
            assert(strs_view(r@) == b.map_values(|x: String| x@).push(v@[i as int]@));
            assert(strs_view(v@).take(i + 1) == strs_view(v@).take(i as int).push(v@[i as int]@));
        }
        i = i + 1;
    }
    let ghost b = r@;
    r.push(s);
    proof {
        assert(strs_view(v@).take(i as int) == strs_view(v@));
        assert(strs_view(r@) == b.map_values(|x: String| x@).push(s@));
    }
    r
}

/// Recursively enumerate arg fillings for a generic type.
fn fill_args(t: &TypeDef, suffix: &Vec<String>, args: &Vec<String>, pool: &Vec<TypeDef>, out: &mut Vec<Filling>)
    requires
        args@.len() < t.arity,
    ensures
        fillings_view(final(out)@) == fillings_view(old(out)@) + fill_args_spec(
            typedef_view(*t),
            strs_view(suffix@),
            strs_view(args@),
            typedefs_view(pool@),
            pool@.len(),
        ),
    decreases t.arity - args@.len(),
{
    let ghost tv = typedef_view(*t);
    let ghost sv = strs_view(suffix@);
    let ghost av = strs_view(args@);
    let ghost pv = typedefs_view(pool@);
    let ghost o0 = fillings_view(out@);
    let mut j: usize = 0;
    while j < pool.len()
        invariant
            j <= pool@.len(),
            args@.len() < t.arity,
            tv == typedef_view(*t),
            sv == strs_view(suffix@),
            av == strs_view(args@),
            pv == typedefs_view(pool@),
            fillings_view(out@) == o0 + fill_args_spec(tv, sv, av, pv, j as nat),
        decreases pool.len() - j,
    {
        let a = &pool[j];
        let sfx = pushed(suffix, copy_str(a.stroke.as_str()));
        let none: Vec<String> = Vec::new();
        let ar = pushed(args, render_type(a.text.as_str(), &none));
        proof {
            assert(strs_view(none@) == Seq::<Seq<char>>::empty());
            assert(pv[j as int] == typedef_view(*a));
        }
        let ghost before = fillings_view(out@);
        if ar.len() as u64 == t.arity as u64 {
            let text = render_type(t.text.as_str(), &ar);
            let f = Filling { suffix: sfx, text, terminal: true, free_type: false };
            out.push(f);
            proof {
                assert(fillings_view(out@) == before.push(filling_view(f)));
            }
        } else {
            let text = partial_type(t.text.as_str(), &ar);
            let f = Filling { suffix: sfx, text, terminal: false, free_type: false };
            let sfx2 = pushed(suffix, copy_str(a.stroke.as_str()));
            out.push(f);
            proof {
                assert(fillings_view(out@) == before.push(filling_view(f)));
            }
            let ghost mid = fillings_view(out@);
            fill_args(t, &sfx2, &ar, pool, out);
            proof {
                assert(o0 + fill_args_spec(tv, sv, av, pv, j as nat) + seq![filling_view(f)] + fill_args_spec(tv, strs_view(sfx2@), strs_view(ar@), pv, pv.len())
                    =~= o0 + (fill_args_spec(tv, sv, av, pv, j as nat).push(filling_view(f)) + fill_args_spec(tv, strs_view(sfx2@), strs_view(ar@), pv, pv.len())));
            }
        }
        j = j + 1;
    }
}

/// Enumerate every append step reachable from the type set.
pub fn fillings(opts: &TypeOptions) -> (r: Vec<Filling>)
    ensures
        fillings_view(r@) == fillings_spec(typedefs_view(opts.types@), typedefs_view(opts.generic_args@)),
{
    let ghost tv = typedefs_view(opts.types@);
    let ghost pv = typedefs_view(opts.generic_args@);
    let mut out: Vec<Filling> = Vec::new();
    let mut i: usize = 0;
    assert(tv.take(0) == Seq::<TypeDefV>::empty());
    while i < opts.types.len()
        invariant
            i <= opts.types@.len(),
            tv == typedefs_view(opts.types@),
            pv == typedefs_view(opts.generic_args@),
            fillings_view(out@) == fillings_spec(tv.take(i as int), pv),
        decreases opts.types.len() - i,
    {
        let t = &opts.types[i];
        proof {
            assert(tv.take(i + 1).drop_last() == tv.take(i as int));
            assert(tv.take(i + 1).last() == typedef_view(*t));
        }
        let ghost before = fillings_view(out@);
        let mut one: Vec<String> = Vec::new();
        one.push(copy_str(t.stroke.as_str()));
        assert(strs_view(one@) == seq![t.stroke@]);
        let none: Vec<String> = Vec::new();
        assert(strs_view(none@) == Seq::<Seq<char>>::empty());
        if t.free_type {
            let f = Filling { suffix: one, text: String::new(), terminal: true, free_type: true };
            out.push(f);
            proof {
                assert(fillings_view(out@) == before + seq![filling_view(f)]);
            }
        } else if t.arity == 0 {
            let f = Filling { suffix: one, text: render_type(t.text.as_str(), &none), terminal: true, free_type: false };
            out.push(f);
            proof {
                assert(fillings_view(out@) == before + seq![filling_view(f)]);
            }
        } else {
            let mut one2: Vec<String> = Vec::new();
            one2.push(copy_str(t.stroke.as_str()));
            assert(strs_view(one2@) == seq![t.stroke@]);
            let f = Filling { suffix: one, text: partial_type(t.text.as_str(), &none), terminal: false, free_type: false };
            out.push(f);
            proof {
                assert(fillings_view(out@) == before.push(filling_view(f)));
            }
            fill_args(t, &one2, &none, &opts.generic_args, &mut out);
            proof {
                assert(before.push(filling_view(f)) + fill_args_spec(typedef_view(*t), seq![t.stroke@], Seq::empty(), pv, pv.len())
                    =~= before + (seq![filling_view(f)] + fill_args_spec(typedef_view(*t), seq![t.stroke@], Seq::empty(), pv, pv.len())));
            }
        }
        i = i + 1;
    }
    assert(tv.take(i as int) == tv);
    out
}

/// The template with the chunks at the first `k` of `slots` replaced by the
/// literal `texts` paired with them (slots past the end are ignored).
pub open spec fn with_types_spec(cs: Seq<ChunkV>, slots: Seq<usize>, texts: Seq<Seq<char>>, k: int) -> Seq<ChunkV>
    decreases k,
{
    if k <= 0 {
        cs
    } else {
        let prev = with_types_spec(cs, slots, texts, k - 1);
        let idx = slots[k - 1] as int;
        if idx < prev.len() {
            prev.update(idx, ChunkV::Lit(texts[k - 1]))
        } else {
            prev
        }
    }
}

/// The number of slot/text pairs.
pub open spec fn pair_count(slots: Seq<usize>, texts: Seq<Seq<char>>) -> int {
    if slots.len() <= texts.len() {
        slots.len() as int
    } else {
        texts.len() as int
    }
}

proof fn lemma_with_types_len(cs: Seq<ChunkV>, slots: Seq<usize>, texts: Seq<Seq<char>>, k: int)
    ensures
        with_types_spec(cs, slots, texts, k).len() == cs.len(),
    decreases k,
{
    if k > 0 {
        lemma_with_types_len(cs, slots, texts, k - 1);
    }
}

/// Replace the chunks at `slots` with literal `texts` (paired by position).
pub fn with_types(template: &Vec<Chunk>, slots: &Vec<usize>, texts: &Vec<String>) -> (r: Vec<Chunk>)
    ensures
        cv(&r) == with_types_spec(
            cv(template),
            slots@,
            strs_view(texts@),
            pair_count(slots@, strs_view(texts@)),
        ),
{
    let ghost tx = strs_view(texts@);
    let mut out = crate::parse::copy_chunks(template);
    let n = if slots.len() <= texts.len() {
        slots.len()
    } else {
        texts.len()
    };
    let mut i: usize = 0;
    while i < n
        invariant
            i <= n,
            n == pair_count(slots@, tx),
            n <= slots@.len(),
            n <= texts@.len(),
            tx == strs_view(texts@),
            cv(&out) == with_types_spec(cv(template), slots@, tx, i as int),
        decreases n - i,
    {
        let idx = slots[i];
        proof {
            lemma_with_types_len(cv(template), slots@, tx, i as int);
            lemma_cv(&out);
            lemma_cv(template);
        }
        if idx < out.len() {
            let ghost before = out@;
            let c = Chunk::Lit(copy_str(texts[i].as_str()));
            out.set(idx, c);
            proof {
                assert(out@ == before.update(idx as int, c));
                assert(cv(&out) =~= chunks_view(before).update(idx as int, ChunkV::Lit(tx[i as int])));
            }
        }
        i = i + 1;
    }
    out
}

/// The free-type fill: the slot becomes a landing one past every existing
/// landing (`None` when that index does not fit).
pub open spec fn free_fill_spec(cs: Seq<ChunkV>, slot: int) -> Option<Seq<ChunkV>> {
    let next: int = match landing_max(cs) {
        Some(m) => m + 1,
        None => 0,
    };
    if next > u32::MAX {
        None
    } else if 0 <= slot < cs.len() {
        Some(cs.update(slot, ChunkV::Landing(next as u32)))
    } else {
        Some(cs)
    }
}

/// One filling applied to a template's single type slot.
pub open spec fn fill_spec(cs: Seq<ChunkV>, slot: int, f: FillingV) -> Option<Seq<ChunkV>> {
    if f.free_type {
        free_fill_spec(cs, slot)
    } else if 0 <= slot < cs.len() {
        Some(cs.update(slot, ChunkV::Lit(f.text)))
    } else {
        Some(cs)
    }
}

/// Free-type fill: replace the type slot with a numbered tabstop above all
/// existing landings, so the plain profile still lands on `%0` (the name) but
/// the snippet profile gets a stop at the type. The `: ` stays.
fn with_free_type(template: &Vec<Chunk>, slot: usize) -> (r: Option<Vec<Chunk>>)
    ensures
        match free_fill_spec(cv(template), slot as int) {
            Some(s) => r matches Some(v) && cv(&v) == s,
            None => r is None,
        },
{
    let ghost cs = cv(template);
    proof {
        lemma_cv(template);
        assert(cs.take(0) == Seq::<ChunkV>::empty());
    }
    let mut max: Option<u32> = None;
    let mut i: usize = 0;
    while i < template.len()
        invariant
            cs == cv(template),
            cs.len() == template@.len(),
            forall|j: int| 0 <= j < template@.len() ==> #[trigger] cs[j] == template@[j]@,
            i <= template@.len(),
            max == landing_max(cs.take(i as int)),
        decreases template.len() - i,
    {
        proof {
            assert(cs.take(i + 1).drop_last() == cs.take(i as int));
            assert(cs.take(i + 1).last() == cs[i as int]);
        }
        if let Chunk::Landing(n) = &template[i] {
            max = match max {
                Some(m) => if m >= *n {
                    Some(m)
                } else {
                    Some(*n)
                },
                None => Some(*n),
            };
        }
        i = i + 1;
    }
    assert(cs.take(i as int) == cs);
    let next = match max {
        Some(m) => {
            if m == 0xffff_ffff {
                return None;
            }
            m + 1
        },
        None => 0,
    };
    let mut out = crate::parse::copy_chunks(template);
    if slot < out.len() {
        let ghost before = out@;
        out.set(slot, Chunk::Landing(next));
        proof {
            lemma_cv(&out);
            assert(cv(&out) =~= chunks_view(before).update(slot as int, ChunkV::Landing(next)));
        }
    }
    Some(out)
}

/// Apply one filling to the template's single type slot (`None` when a free
/// type's tabstop index would not fit).
pub fn fill_template(template: &Vec<Chunk>, slot: usize, f: &Filling) -> (r: Option<Vec<Chunk>>)
    ensures
        match fill_spec(cv(template), slot as int, filling_view(*f)) {
            Some(s) => r matches Some(v) && cv(&v) == s,
            None => r is None,
        },
{
    if f.free_type {
        with_free_type(template, slot)
    } else {
        let mut slots: Vec<usize> = Vec::new();
        slots.push(slot);
        let mut texts: Vec<String> = Vec::new();
        texts.push(copy_str(f.text.as_str()));
        let r = with_types(template, &slots, &texts);
        proof {
            assert(strs_view(texts@) == seq![f.text@]);
            assert(pair_count(slots@, seq![f.text@]) == 1);
            assert(with_types_spec(cv(template), slots@, seq![f.text@], 0) == cv(template));
            lemma_cv(template);
        }
        Some(r)
    }
}

} // verus!
