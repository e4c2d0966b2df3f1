//! Build-time fuse ambiguity check: no two `(shape, type)` pairs may merge
//! to the same stroke under the same base, or a fused lookup would silently
//! pick one of them.
use vstd::prelude::*;
use super::{construct_view, constructs_view, inftype_view, inftypes_view, Construct, ConstructV, InfType, InfTypeV};
use crate::error::ExpandError;
use crate::parse::{copy_strings, strs_view};
use crate::stroke::bank::{merge_spec, merge_strokes};
use crate::text::{copy_str, push_str, str_eq};

verus! {

broadcast use vstd::seq_lib::group_seq_properties;

/// One merge a fused construct can produce: under `base`, the shape merged
/// with the type stroke `ty` gives `merged`.
pub struct FuseRecV {
    pub base: Seq<Seq<char>>,
    pub merged: Seq<char>,
    pub shape: Seq<char>,
    pub ty: Seq<char>,
}

/// The merges of one construct with the first `k` types, in type order.
pub open spec fn construct_records(c: ConstructV, ts: Seq<InfTypeV>, k: nat) -> Seq<FuseRecV>
    decreases k,
{
    if k == 0 || k > ts.len() {
        Seq::empty()
    } else {
        let prev = construct_records(c, ts, (k - 1) as nat);
        match c.shape {
            None => prev,
            Some(shape) => match merge_spec(ts[k - 1].stroke, shape) {
                None => prev,
                Some(m) => prev.push(FuseRecV { base: c.base, merged: m, shape, ty: ts[k - 1].stroke }),
            },
        }
    }
}

/// The merges of the first `k` constructs with every type, in order.
pub open spec fn fuse_records(ts: Seq<InfTypeV>, cs: Seq<ConstructV>, k: nat) -> Seq<FuseRecV>
    decreases k,
{
    if k == 0 || k > cs.len() {
        Seq::empty()
    } else {
        fuse_records(ts, cs, (k - 1) as nat) + construct_records(cs[k - 1], ts, ts.len())
    }
}

/// Two merges land on the same `(base, merged)` key.
pub open spec fn same_key(a: FuseRecV, b: FuseRecV) -> bool {
    a.base == b.base && a.merged == b.merged
}

/// Two merges come from the same `(shape, type)` pair.
pub open spec fn same_pair(a: FuseRecV, b: FuseRecV) -> bool {
    a.shape == b.shape && a.ty == b.ty
}

/// Among the first `n` merges, every key is reached by one pair only.
pub open spec fn consistent_upto(rs: Seq<FuseRecV>, n: int) -> bool {
    forall|i: int, j: int|
        0 <= i < n && 0 <= j < n && #[trigger] same_key(rs[i], rs[j]) ==> same_pair(rs[i], rs[j])
}

/// The message naming two colliding pairs.
pub open spec fn fuse_message(prev: FuseRecV, cur: FuseRecV) -> Seq<char> {
    "fuse ambiguity: shape \""@ + prev.shape + "\"+type \""@ + prev.ty + "\" and shape \""@ + cur.shape
        + "\"+type \""@ + cur.ty + "\" both fuse to \""@ + cur.merged + "\""@
}

/// The merge record as plain strings.
struct FuseRec {
    base: Vec<String>,
    merged: String,
    shape: String,
    ty: String,
}

spec fn rec_view(r: FuseRec) -> FuseRecV {
    FuseRecV { base: strs_view(r.base@), merged: r.merged@, shape: r.shape@, ty: r.ty@ }
}

spec fn recs_view(v: Seq<FuseRec>) -> Seq<FuseRecV> {
    v.map_values(|r: FuseRec| rec_view(r))
}

/// Append one construct's merges with every type.
fn push_construct_records(out: &mut Vec<FuseRec>, c: &Construct, types: &Vec<InfType>)
    ensures
        recs_view(final(out)@) == recs_view(old(out)@) + construct_records(
            construct_view(*c),
            inftypes_view(types@),
            types@.len(),
        ),
{
    let ghost before = recs_view(out@);
    let ghost cv = construct_view(*c);
    let ghost tv = inftypes_view(types@);
    let shape = match &c.shape {
        Some(s) => s,
        None => {
            proof {
                lemma_no_shape(cv, tv, tv.len());
            }
            assert(before + Seq::<FuseRecV>::empty() == before);
            return;
        },
    };
    let mut k: usize = 0;
    assert(before + construct_records(cv, tv, 0) == before);
    while k < types.len()
        invariant
            k <= types@.len(),
            cv == construct_view(*c),
            tv == inftypes_view(types@),
            cv.shape == Some(shape@),
            recs_view(out@) == before + construct_records(cv, tv, k as nat),
        decreases types.len() - k,
    {
        let t = &types[k];
        assert(tv[k as int] == inftype_view(*t));
        let ghost prev = recs_view(out@);
        match merge_strokes(t.stroke.as_str(), shape.as_str()) {
            Ok(m) => {
                let rec = FuseRec {
                    base: copy_strings(&c.base),
                    merged: m,
                    shape: copy_str(shape.as_str()),
                    ty: copy_str(t.stroke.as_str()),
                };
                let ghost rv = rec_view(rec);
                out.push(rec);
                assert(recs_view(out@) == prev.push(rv));
            },
            Err(_) => {},
        }
        k = k + 1;
    }
}

proof fn lemma_no_shape(c: ConstructV, ts: Seq<InfTypeV>, k: nat)
    requires
        c.shape is None,
    ensures
        construct_records(c, ts, k) == Seq::<FuseRecV>::empty(),
    decreases k,
{
    if k > 0 {
        lemma_no_shape(c, ts, (k - 1) as nat);
    }
}

/// `true` iff the two string lists are equal.
fn strs_eq(a: &Vec<String>, b: &Vec<String>) -> (r: bool)
    ensures
        r == (strs_view(a@) == strs_view(b@)),
{
    if a.len() != b.len() {
        assert(strs_view(a@).len() != strs_view(b@).len());
        return false;
    }
    let mut i: usize = 0;
    while i < a.len()
        invariant
            i <= a@.len(),
            a@.len() == b@.len(),
            forall|j: int| 0 <= j < i ==> a@[j]@ == b@[j]@,
        decreases a.len() - i,
    {
        if !str_eq(a[i].as_str(), b[i].as_str()) {
            assert(strs_view(a@)[i as int] != strs_view(b@)[i as int]);
            return false;
        }
        i = i + 1;
    }
    assert(strs_view(a@) =~= strs_view(b@));
    true
}

/// The collision message for two records.
fn clash_message(prev: &FuseRec, cur: &FuseRec) -> (r: String)
    ensures
        r@ == fuse_message(rec_view(*prev), rec_view(*cur)),
{
    let mut s = String::new();
    push_str(&mut s, "fuse ambiguity: shape \"");
    push_str(&mut s, prev.shape.as_str());
    push_str(&mut s, "\"+type \"");
    push_str(&mut s, prev.ty.as_str());
    push_str(&mut s, "\" and shape \"");
    push_str(&mut s, cur.shape.as_str());
    push_str(&mut s, "\"+type \"");
    push_str(&mut s, cur.ty.as_str());
    push_str(&mut s, "\" both fuse to \"");
    push_str(&mut s, cur.merged.as_str());
    push_str(&mut s, "\"");
    proof {
        reveal_strlit("fuse ambiguity: shape \"");
        reveal_strlit("\"+type \"");
        reveal_strlit("\" and shape \"");
        reveal_strlit("\" both fuse to \"");
        reveal_strlit("\"");
    }
    s
}

/// Build-time fuse ambiguity check over the type and construct tables.
///
/// Every fused construct merges its shape with every type stroke it can;
/// the check passes iff no `(base, merged stroke)` key is reached by two
/// different `(shape, type)` pairs. On a collision, the error names the
/// earlier pair and the first merge that disagrees with it.
#[verifier::loop_isolation(false)]
pub fn check_fuse_ambiguity(types: &Vec<InfType>, constructs: &Vec<Construct>) -> (r: Result<(), ExpandError>)
    ensures
        ({
            let rs = fuse_records(inftypes_view(types@), constructs_view(constructs@), constructs@.len());
            &&& r is Ok <==> consistent_upto(rs, rs.len() as int)
            &&& r matches Err(e) ==> exists|i: int, j: int|
                0 <= i < j < rs.len() && consistent_upto(rs, j) && #[trigger] same_key(rs[i], rs[j])
                    && !same_pair(rs[i], rs[j]) && e.spec_message() == fuse_message(rs[i], rs[j])
        }),
{
    let ghost tv = inftypes_view(types@);
    let ghost cvs = constructs_view(constructs@);
    let mut recs: Vec<FuseRec> = Vec::new();
    let mut n: usize = 0;
    while n < constructs.len()
        invariant
            n <= constructs@.len(),
            tv == inftypes_view(types@),
            cvs == constructs_view(constructs@),
            recs_view(recs@) == fuse_records(tv, cvs, n as nat),
        decreases constructs.len() - n,
    {
        assert(cvs[n as int] == construct_view(constructs@[n as int]));
        push_construct_records(&mut recs, &constructs[n], types);
        n = n + 1;
    }
    let ghost rs = recs_view(recs@);
    assert(rs == fuse_records(tv, cvs, cvs.len()));
    let mut j: usize = 0;
    while j < recs.len()
        invariant
            j <= recs@.len(),
            rs == recs_view(recs@),
            consistent_upto(rs, j as int),
        decreases recs.len() - j,
    {
        let mut i: usize = 0;
        while i < j
            invariant
                i <= j < recs@.len(),
                rs == recs_view(recs@),
                consistent_upto(rs, j as int),
                forall|q: int| 0 <= q < i ==> #[trigger] same_key(rs[q], rs[j as int]) ==> same_pair(rs[q], rs[j as int]),
            decreases j - i,
        {
            let a = &recs[i];
            let b = &recs[j];
            assert(rs[i as int] == rec_view(*a));
            assert(rs[j as int] == rec_view(*b));
            if strs_eq(&a.base, &b.base) && str_eq(a.merged.as_str(), b.merged.as_str()) {
                if !(str_eq(a.shape.as_str(), b.shape.as_str()) && str_eq(a.ty.as_str(), b.ty.as_str())) {
                    let msg = clash_message(a, b);
                    assert(same_key(rs[i as int], rs[j as int]));
                    assert(!same_pair(rs[i as int], rs[j as int]));
                    assert(!consistent_upto(rs, rs.len() as int)) by {
                        assert(same_key(rs[i as int], rs[j as int]));
                    }
                    return Err(ExpandError::new(msg));
                }
            }
            i = i + 1;
        }
        assert forall|p: int, q: int|
            0 <= p < j + 1 && 0 <= q < j + 1 && #[trigger] same_key(rs[p], rs[q]) implies same_pair(rs[p], rs[q]) by {
            if p == j as int && q < j as int {
                assert(same_key(rs[q], rs[j as int]));
            }
        }
        j = j + 1;
    }
    Ok(())
}

} // verus!
