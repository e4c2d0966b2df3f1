//! Line-expansion flag: every TERMINAL entry that contains a `%b` (and isn't
//! a forced-multiline construct) also gets a U-keyed one-liner variant where
//! the body break collapses. The default (no U) stays multi-line.
use vstd::prelude::*;
use super::counts::{join_all, join_slash};
use super::{typed_view, typeds_view, TypedEntry, TypedV};
use crate::error::ExpandError;
use crate::parse::{cv, lemma_cv, strs_view, Chunk, ChunkV, MULTILINE};
use crate::stroke::bank::{add_key, add_key_error, add_key_spec};
use crate::text::{split_on, split_string};

verus! {

broadcast use vstd::seq_lib::group_seq_properties;

/// The template holds a `%b` body break.
pub open spec fn has_break(cs: Seq<ChunkV>) -> bool {
    exists|i: int| 0 <= i < cs.len() && cs[i] is BodyBreak
}

/// An entry that gets a one-liner variant.
pub open spec fn one_liner_eligible(e: TypedV) -> bool {
    e.terminal && has_break(e.template) && !e.source.flags.has(MULTILINE)
}

/// The one-liner variant of `e`: `U` added to the first stroke segment.
pub open spec fn one_liner_spec(e: TypedV) -> Option<TypedV> {
    let segs = split_on(e.stroke, '/');
    match add_key_spec(segs[0], 'U') {
        Some(f) => Some(TypedV { stroke: join_slash(segs.update(0, f)), one_liner: true, ..e }),
        None => None,
    }
}

/// Each entry followed, where eligible, by its one-liner variant.
pub open spec fn line_flag_spec(es: Seq<TypedV>) -> Option<Seq<TypedV>>
    decreases es.len(),
{
    if es.len() == 0 {
        Some(Seq::empty())
    } else {
        match line_flag_spec(es.drop_last()) {
            None => None,
            Some(prev) => {
                let e = es.last();
                if one_liner_eligible(e) {
                    match one_liner_spec(e) {
                        Some(v) => Some(prev + seq![e, v]),
                        None => None,
                    }
                } else {
                    Some(prev.push(e))
                }
            },
        }
    }
}

/// Why the one-liner variants cannot all be formed: `U` cannot join the
/// first segment of the first eligible entry that fails.
pub open spec fn line_flag_error(es: Seq<TypedV>) -> Seq<char>
    decreases es.len(),
{
    if es.len() == 0 {
        Seq::empty()
    } else if line_flag_spec(es.drop_last()) is None {
        line_flag_error(es.drop_last())
    } else {
        add_key_error(split_on(es.last().stroke, '/')[0], 'U')
    }
}

/// `U` joins the first stroke segment of `e` wherever `e` is eligible.
pub open spec fn one_liner_ok(e: TypedV) -> bool {
    one_liner_eligible(e) ==> add_key_spec(split_on(e.stroke, '/')[0], 'U') is Some
}

/// `e`, followed, where eligible, by its copy marked one-liner whose first
/// stroke segment has `U` added.
pub open spec fn with_one_liner(e: TypedV) -> Seq<TypedV> {
    if one_liner_eligible(e) {
        let segs = split_on(e.stroke, '/');
        seq![
            e,
            TypedV {
                stroke: join_slash(segs.update(0, add_key_spec(segs[0], 'U')->0)),
                one_liner: true,
                ..e
            },
        ]
    } else {
        seq![e]
    }
}

/// The one-liner pass succeeds exactly when `U` can be added to the first
/// stroke segment of every eligible entry. Then it lists every entry in
/// order, each eligible one immediately followed by its one-liner variant;
/// otherwise it fails with the error of the first eligible entry that
/// cannot take `U`.
pub proof fn law_line_flag(es: Seq<TypedV>)
    ensures
        line_flag_spec(es) is Some <==> forall|i: int| 0 <= i < es.len() ==> one_liner_ok(#[trigger] es[i]),
        line_flag_spec(es) is Some ==> line_flag_spec(es)->0 == Seq::new(
            es.len(),
            |i: int| with_one_liner(es[i]),
        ).flatten(),
        forall|k: int|
            0 <= k < es.len() && !one_liner_ok(#[trigger] es[k]) && (forall|j: int|
                0 <= j < k ==> one_liner_ok(#[trigger] es[j])) ==> line_flag_error(es) == add_key_error(
                split_on(es[k].stroke, '/')[0],
                'U',
            ),
    decreases es.len(),
{
    if es.len() > 0 {
        let q = es.drop_last();
        law_line_flag(q);
        let xs = Seq::new(es.len(), |i: int| with_one_liner(es[i]));
        let ys = Seq::new(q.len(), |i: int| with_one_liner(q[i]));
        assert(xs.drop_last() =~= ys);
        xs.lemma_flatten_and_flatten_alt_are_equivalent();
        ys.lemma_flatten_and_flatten_alt_are_equivalent();
        let e = es.last();
        assert(xs.last() == with_one_liner(e));
        if forall|i: int| 0 <= i < es.len() ==> one_liner_ok(#[trigger] es[i]) {
            assert forall|i: int| 0 <= i < q.len() implies one_liner_ok(#[trigger] q[i]) by {
                assert(q[i] == es[i]);
            }
            assert(one_liner_ok(es[es.len() - 1]));
            let prev = line_flag_spec(q)->0;
            if one_liner_eligible(e) {
                assert(prev + seq![e, one_liner_spec(e)->0] =~= prev + with_one_liner(e));
            } else {
                assert(prev.push(e) =~= prev + with_one_liner(e));
            }
        } else {
            let i = choose|i: int| 0 <= i < es.len() && !one_liner_ok(#[trigger] es[i]);
            if i < q.len() {
                assert(q[i] == es[i]);
            }
        }
        assert forall|k: int|
            0 <= k < es.len() && !one_liner_ok(#[trigger] es[k]) && (forall|j: int|
                0 <= j < k ==> one_liner_ok(#[trigger] es[j])) implies line_flag_error(es) == add_key_error(
                split_on(es[k].stroke, '/')[0],
                'U',
            ) by {
            if k < q.len() {
                assert(q[k] == es[k]);
                assert forall|j: int| 0 <= j < k implies one_liner_ok(#[trigger] q[j]) by {
                    assert(q[j] == es[j]);
                    assert(one_liner_ok(es[j]));
                }
                assert(!(forall|i: int| 0 <= i < q.len() ==> one_liner_ok(#[trigger] q[i])));
            } else {
                assert forall|i: int| 0 <= i < q.len() implies one_liner_ok(#[trigger] q[i]) by {
                    assert(q[i] == es[i]);
                    assert(one_liner_ok(es[i]));
                }
            }
        }
    }
}

proof fn lemma_line_flag_none(es: Seq<TypedV>, j: int)
    requires
        0 <= j <= es.len(),
        line_flag_spec(es.take(j)) is None,
    ensures
        line_flag_spec(es) is None,
        line_flag_error(es) == line_flag_error(es.take(j)),
    decreases es.len() - j,
{
    if j < es.len() {
        assert(es.take(j + 1).drop_last() == es.take(j));
        lemma_line_flag_none(es, j + 1);
    } else {
        assert(es.take(j) == es);
    }
}

/// The template holds a body break.
fn template_has_break(template: &Vec<Chunk>) -> (b: bool)
    ensures
        b == has_break(cv(template)),
{
    proof {
        lemma_cv(template);
    }
    let mut i: usize = 0;
    while i < template.len()
        invariant
            i <= template@.len(),
            cv(template).len() == template@.len(),
            forall|j: int| 0 <= j < template@.len() ==> #[trigger] cv(template)[j] == template@[j]@,
            forall|j: int| 0 <= j < i ==> !(cv(template)[j] is BodyBreak),
        decreases template.len() - i,
    {
        if let Chunk::BodyBreak = &template[i] {
            assert(cv(template)[i as int] is BodyBreak);
            return true;
        }
        i = i + 1;
    }
    false
}

/// Emit each entry plus, where eligible, its U-keyed one-liner variant.
///
/// Fails when the U key cannot be added to an entry's first stroke segment.
pub fn expand_line_flag(entries: &Vec<TypedEntry>) -> (r: Result<Vec<TypedEntry>, ExpandError>)
    ensures
        match line_flag_spec(typeds_view(entries@)) {
            Some(s) => r matches Ok(v) && typeds_view(v@) == s,
            None => r matches Err(e) && e.spec_message() == line_flag_error(typeds_view(entries@)),
        },
{
    let ghost es = typeds_view(entries@);
    let mut out: Vec<TypedEntry> = Vec::new();
    let mut i: usize = 0;
    assert(es.take(0) == Seq::<TypedV>::empty());
    while i < entries.len()
        invariant
            i <= entries@.len(),
            es == typeds_view(entries@),
            line_flag_spec(es.take(i as int)) == Some(typeds_view(out@)),
        decreases entries.len() - i,
    {
        let e = &entries[i];
        proof {
            assert(es.take(i + 1).drop_last() == es.take(i as int));
            assert(es.take(i + 1).last() == typed_view(*e));
        }
        let ghost before = typeds_view(out@);
        let c = e.copy();
        out.push(c);
        proof {
            assert(typeds_view(out@) == before.push(typed_view(*e)));
        }
        if e.terminal && template_has_break(&e.template) && !e.source.flags.multiline() {
            let mut segs = split_string(e.stroke.as_str(), '/');
            let first = match add_key(segs[0].as_str(), 'U') {
                Ok(f) => f,
                Err(er) => {
                    proof {
                        assert(strs_view(segs@)[0] == segs@[0]@);
                        lemma_line_flag_none(es, i + 1);
                    }
                    return Err(ExpandError::from_stroke(er));
                },
            };
            let ghost sv = strs_view(segs@);
            let ghost fv = first@;
            segs.set(0, first);
            proof {
                assert(strs_view(segs@) == sv.update(0, fv));
            }
            let stroke = join_all(&segs);
            let mut v = e.copy();
            v.stroke = stroke;
            v.one_liner = true;
            let ghost mid = typeds_view(out@);
            out.push(v);
            proof {
                assert(typeds_view(out@) == mid.push(typed_view(v)));
                assert(before + seq![typed_view(*e), typed_view(v)] =~= before.push(typed_view(*e)).push(typed_view(v)));
            }
        }
        i = i + 1;
    }
    assert(es.take(i as int) == es);
    Ok(out)
}

} // verus!
