//! Buckets node leaves that share a tree position and an authored line into
//! one choice ("axis") entry, so `@count`/`@fuse` alternatives of the same
//! line read as one path node with N labeled options instead of N flat,
//! near-identical siblings.
use vstd::prelude::*;
use crate::expand::{typed_view, TypedEntry, TypedV};
use crate::parse::strs_view;
use crate::text::{copy_str, decimal, decimal_string, push_decimal, push_str, str_eq};

verus! {

broadcast use vstd::seq_lib::group_seq_properties;

/// Which kind of choice an axis represents.
#[derive(Clone, Copy, Debug, PartialEq, Eq)]
pub enum Kind {
    /// `@count`-fanned digit choice.
    Count,
    /// `@type`/`@fuse` type-name choice.
    Type,
}

/// The JSON `"kind"` string of a kind.
pub open spec fn kind_str(k: Kind) -> Seq<char> {
    match k {
        Kind::Count => "count"@,
        Kind::Type => "type"@,
    }
}

impl Kind {
    /// The JSON `"kind"` string.
    pub fn as_str(&self) -> (r: &'static str)
        ensures
            r@ == kind_str(*self),
    {
        match self {
            Kind::Count => {
                proof {
                    reveal_strlit("count");
                }
                "count"
            },
            Kind::Type => {
                proof {
                    reveal_strlit("type");
                }
                "type"
            },
        }
    }
}

/// One value of a choice axis: a human label plus the real leaf key it
/// resolves to.
pub struct Choice {
    /// What to show for this alternative (a count digit or a type name).
    pub label: String,
    /// The real node key this choice resolves to.
    pub key: String,
}

/// Model of a choice.
pub struct ChoiceV {
    pub label: Seq<char>,
    pub key: Seq<char>,
}

/// The model of a choice.
pub open spec fn choice_view(c: Choice) -> ChoiceV {
    ChoiceV { label: c.label@, key: c.key@ }
}

/// A choice point: pick one of several labeled alternatives.
pub struct Axis {
    /// Which kind of choice this is.
    pub kind: Kind,
    /// The alternatives, in source order.
    pub choices: Vec<Choice>,
}

/// Model of an axis.
pub struct AxisV {
    pub kind: Kind,
    pub choices: Seq<ChoiceV>,
}

/// The model of an axis.
pub open spec fn axis_view(a: Axis) -> AxisV {
    AxisV { kind: a.kind, choices: a.choices@.map_values(|c: Choice| choice_view(c)) }
}

/// A table from keys to lists of keys, in first-insertion order.
pub open spec fn kids_view(v: Seq<(String, Vec<String>)>) -> Seq<(Seq<char>, Seq<Seq<char>>)> {
    v.map_values(|p: (String, Vec<String>)| (p.0@, strs_view(p.1@)))
}

/// Bucketing output: every position's ordered list of next-step keys
/// (a plain leaf key when only one entry sits there, a synthetic axis key
/// otherwise), plus the axis metadata for each synthetic key, both in
/// first-seen order.
pub struct Grouped {
    /// Tree position -> its ordered next-step keys (one record per
    /// position, in first-seen order).
    pub children_of: Vec<(String, Vec<String>)>,
    /// Synthetic axis key -> its axis metadata, in first-seen order.
    pub axes: Vec<(String, Axis)>,
}

/// Model of a bucketing output.
pub struct GroupedV {
    pub children_of: Seq<(Seq<char>, Seq<Seq<char>>)>,
    pub axes: Seq<(Seq<char>, AxisV)>,
}

/// The model of a bucketing output.
pub open spec fn grouped_view(g: Grouped) -> GroupedV {
    GroupedV {
        children_of: kids_view(g.children_of@),
        axes: g.axes@.map_values(|p: (String, Axis)| (p.0@, axis_view(p.1))),
    }
}

/// One leaf awaiting bucketing: its key, its tree position, and a
/// representative entry (any member sharing that key; they all share their
/// source entry).
pub struct Leaf<'a> {
    /// The real node key.
    pub key: String,
    /// This leaf's parent tree position (see `position`).
    pub position: String,
    /// A representative entry for this key.
    pub entry: &'a TypedEntry,
}

/// Model of a leaf.
pub struct LeafV {
    pub key: Seq<char>,
    pub position: Seq<char>,
    pub entry: TypedV,
}

/// The model of a leaf.
pub open spec fn leaf_view(l: Leaf) -> LeafV {
    LeafV { key: l.key@, position: l.position@, entry: typed_view(*l.entry) }
}

/// The models of a list of leaves.
pub open spec fn leaves_view(v: Seq<Leaf>) -> Seq<LeafV> {
    v.map_values(|l: Leaf| leaf_view(l))
}

/// Which axis kind an entry's choice belongs to: a type choice when the
/// siblings vary by appended type, a count choice otherwise.
pub open spec fn kind_spec(e: TypedV) -> Kind {
    if e.type_label is Some {
        Kind::Type
    } else {
        Kind::Count
    }
}

/// An entry's label on its axis: the resolved count digit, or its type name
/// (`default` for a free type).
pub open spec fn label_spec(e: TypedV, k: Kind) -> Seq<char> {
    match k {
        Kind::Count => match e.count {
            Some(c) => decimal(c as nat),
            None => Seq::empty(),
        },
        Kind::Type => match e.type_label {
            Some(t) => t,
            None => "default"@,
        },
    }
}

fn kind(entry: &TypedEntry) -> (k: Kind)
    ensures
        k == kind_spec(typed_view(*entry)),
{
    if entry.type_label.is_some() {
        Kind::Type
    } else {
        Kind::Count
    }
}

fn label(entry: &TypedEntry, kind: Kind) -> (r: String)
    ensures
        r@ == label_spec(typed_view(*entry), kind),
{
    match kind {
        Kind::Count => match entry.count {
            Some(c) => decimal_string(c as u64),
            None => String::new(),
        },
        Kind::Type => match &entry.type_label {
            Some(t) => copy_str(t.as_str()),
            None => {
                proof {
                    reveal_strlit("default");
                }
                copy_str("default")
            },
        },
    }
}

/// The bucket identity of a leaf: its position and its authored stroke.
pub open spec fn bucket_key(l: LeafV) -> (Seq<char>, Seq<char>) {
    (l.position, l.entry.source.stroke_raw)
}

/// Index of the first `k` in `ks`, or its length.
pub open spec fn index_of<K>(ks: Seq<K>, k: K) -> int
    decreases ks.len(),
{
    if ks.len() == 0 {
        0
    } else if ks[0] == k {
        0
    } else {
        1 + index_of(ks.drop_first(), k)
    }
}

pub proof fn lemma_index_of<K>(ks: Seq<K>, k: K)
    ensures
        0 <= index_of(ks, k) <= ks.len(),
        index_of(ks, k) < ks.len() ==> ks[index_of(ks, k)] == k,
        forall|j: int| 0 <= j < index_of(ks, k) ==> #[trigger] ks[j] != k,
    decreases ks.len(),
{
    if ks.len() > 0 && ks[0] != k {
        lemma_index_of(ks.drop_first(), k);
        assert forall|j: int| 0 <= j < index_of(ks, k) implies #[trigger] ks[j] != k by {
            if j > 0 {
                assert(ks[j] == ks.drop_first()[j - 1]);
            }
        }
    }
}

pub proof fn lemma_index_of_unique<K>(ks: Seq<K>, k: K, i: int)
    requires
        0 <= i <= ks.len(),
        i < ks.len() ==> ks[i] == k,
        forall|j: int| 0 <= j < i ==> #[trigger] ks[j] != k,
    ensures
        index_of(ks, k) == i,
    decreases ks.len(),
{
    if ks.len() > 0 && i > 0 {
        assert(ks[0] != k);
        assert forall|j: int| 0 <= j < i - 1 implies #[trigger] ks.drop_first()[j] != k by {
            assert(ks.drop_first()[j] == ks[j + 1]);
        }
        lemma_index_of_unique(ks.drop_first(), k, i - 1);
    }
}

/// The buckets of the first `n` leaves: their identities in first-seen
/// order, and for each the indices of its leaves in order.
pub open spec fn bucket_fold(ls: Seq<LeafV>, n: nat) -> (Seq<(Seq<char>, Seq<char>)>, Seq<Seq<int>>)
    decreases n,
{
    if n == 0 || n > ls.len() {
        (Seq::empty(), Seq::empty())
    } else {
        let (ks, bs) = bucket_fold(ls, (n - 1) as nat);
        let k = bucket_key(ls[n - 1]);
        let i = index_of(ks, k);
        if i < ks.len() {
            (ks, bs.update(i, bs[i].push(n - 1)))
        } else {
            (ks.push(k), bs.push(seq![n - 1]))
        }
    }
}

/// The synthetic key of the axis for bucket `idx`, whose first leaf comes
/// from authored line `line`.
pub open spec fn axis_key_spec(line: usize, idx: int) -> Seq<char> {
    seq!['#'] + decimal(line as nat) + seq!['.'] + decimal(idx as nat)
}

/// `m` with `v` appended to the list under `k` (a new record at the end
/// when `k` is absent).
pub open spec fn kids_append(m: Seq<(Seq<char>, Seq<Seq<char>>)>, k: Seq<char>, v: Seq<char>) -> Seq<(Seq<char>, Seq<Seq<char>>)> {
    let i = index_of(m.map_values(|p: (Seq<char>, Seq<Seq<char>>)| p.0), k);
    if i < m.len() {
        m.update(i, (k, m[i].1.push(v)))
    } else {
        m.push((k, seq![v]))
    }
}

/// The choices of a bucket.
pub open spec fn bucket_choices(ls: Seq<LeafV>, b: Seq<int>, k: Kind) -> Seq<ChoiceV> {
    Seq::new(b.len(), |j: int| ChoiceV { label: label_spec(ls[b[j]].entry, k), key: ls[b[j]].key })
}

/// The output for the first `n` buckets: a lone leaf is referenced by its
/// own key, a larger bucket by a new axis over all its leaves.
pub open spec fn emit_fold(ls: Seq<LeafV>, bs: Seq<Seq<int>>, n: nat) -> GroupedV
    decreases n,
{
    if n == 0 || n > bs.len() {
        GroupedV { children_of: Seq::empty(), axes: Seq::empty() }
    } else {
        let g = emit_fold(ls, bs, (n - 1) as nat);
        let b = bs[n - 1];
        if b.len() == 0 {
            g
        } else {
            let first = ls[b[0]];
            if b.len() == 1 {
                GroupedV { children_of: kids_append(g.children_of, first.position, first.key), axes: g.axes }
            } else {
                let ak = axis_key_spec(first.entry.source.line, n - 1);
                let k = kind_spec(first.entry);
                GroupedV {
                    children_of: kids_append(g.children_of, first.position, ak),
                    axes: g.axes.push((ak, AxisV { kind: k, choices: bucket_choices(ls, b, k) })),
                }
            }
        }
    }
}

/// The bucketing of a list of leaves.
pub open spec fn group_spec(ls: Seq<LeafV>) -> GroupedV {
    let (ks, bs) = bucket_fold(ls, ls.len());
    emit_fold(ls, bs, bs.len())
}

proof fn lemma_bucket_fold(ls: Seq<LeafV>, n: nat)
    requires
        n <= ls.len(),
    ensures
        bucket_fold(ls, n).0.len() == bucket_fold(ls, n).1.len(),
        forall|i: int, j: int|
            0 <= i < bucket_fold(ls, n).1.len() && 0 <= j < bucket_fold(ls, n).1[i].len() ==> 0 <= #[trigger] bucket_fold(
                ls,
                n,
            ).1[i][j] < n,
    decreases n,
{
    if n > 0 {
        lemma_bucket_fold(ls, (n - 1) as nat);
        let (ks, bs) = bucket_fold(ls, (n - 1) as nat);
        lemma_index_of(ks, bucket_key(ls[n - 1]));
    }
}

/// Buckets `bs` with identities `ks` partition the first `n` leaves: every
/// leaf sits in exactly one bucket, in order, and a bucket holds exactly the
/// leaves of its identity.
pub open spec fn partitions(ls: Seq<LeafV>, n: nat, ks: Seq<(Seq<char>, Seq<char>)>, bs: Seq<Seq<int>>) -> bool {
    &&& ks.len() == bs.len()
    &&& ks.no_duplicates()
    &&& forall|b: int| 0 <= b < bs.len() ==> #[trigger] bs[b].len() > 0
    &&& forall|b: int, j: int|
        0 <= b < bs.len() && 0 <= j < bs[b].len() ==> 0 <= #[trigger] bs[b][j] < n && bucket_key(ls[bs[b][j]]) == ks[b]
    &&& forall|b: int, j1: int, j2: int|
        0 <= b < bs.len() && 0 <= j1 < j2 < bs[b].len() ==> #[trigger] bs[b][j1] < #[trigger] bs[b][j2]
    &&& forall|i: int| 0 <= i < n ==> #[trigger] in_some_bucket(bs, i)
}

/// Leaf `i` sits in one of the buckets `bs`.
pub open spec fn in_some_bucket(bs: Seq<Seq<int>>, i: int) -> bool {
    exists|b: int, j: int| 0 <= b < bs.len() && 0 <= j < bs[b].len() && #[trigger] bs[b][j] == i
}

proof fn lemma_bucket_partition(ls: Seq<LeafV>, n: nat)
    requires
        n <= ls.len(),
    ensures
        partitions(ls, n, bucket_fold(ls, n).0, bucket_fold(ls, n).1),
    decreases n,
{
    if n > 0 {
        lemma_bucket_partition(ls, (n - 1) as nat);
        let (ks, bs) = bucket_fold(ls, (n - 1) as nat);
        let k = bucket_key(ls[n - 1]);
        let i = index_of(ks, k);
        lemma_index_of(ks, k);
        let (ks2, bs2) = bucket_fold(ls, n);
        let last = n - 1;
        if i < ks.len() {
            assert(ks2 == ks);
            assert(bs2 == bs.update(i, bs[i].push(last)));
            assert forall|b: int| 0 <= b < bs2.len() implies #[trigger] bs2[b].len() > 0 by {
                if b != i {
                    assert(bs2[b] == bs[b]);
                }
            }
            assert forall|b: int, j: int| 0 <= b < bs2.len() && 0 <= j < bs2[b].len() implies 0 <= #[trigger] bs2[b][j] < n
                && bucket_key(ls[bs2[b][j]]) == ks2[b] by {
                if b != i {
                    assert(bs2[b][j] == bs[b][j]);
                } else if j < bs[i].len() {
                    assert(bs2[b][j] == bs[i][j]);
                } else {
                    assert(bs2[b][j] == last);
                }
            }
            assert forall|b: int, j1: int, j2: int| 0 <= b < bs2.len() && 0 <= j1 < j2 < bs2[b].len() implies #[trigger] bs2[b][j1]
                < #[trigger] bs2[b][j2] by {
                if b != i {
                    assert(bs2[b][j1] == bs[b][j1] && bs2[b][j2] == bs[b][j2]);
                } else {
                    assert(bs2[b][j1] == bs[i][j1]);
                    if j2 < bs[i].len() {
                        assert(bs2[b][j2] == bs[i][j2]);
                    } else {
                        assert(bs2[b][j2] == last);
                        assert(bs[i][j1] < n - 1);
                    }
                }
            }
            assert forall|x: int| 0 <= x < n implies #[trigger] in_some_bucket(bs2, x) by {
                if x < last {
                    assert(in_some_bucket(bs, x));
                    let (b, j) = choose|b: int, j: int| 0 <= b < bs.len() && 0 <= j < bs[b].len() && #[trigger] bs[b][j] == x;
                    if b != i {
                        assert(bs2[b][j] == x);
                    } else {
                        assert(bs2[i][j] == x);
                    }
                } else {
                    assert(bs2[i][bs[i].len() as int] == x);
                }
            }
        } else {
            assert(ks2 == ks.push(k));
            assert(bs2 == bs.push(seq![last]));
            assert(ks2.no_duplicates()) by {
                assert forall|a: int, c: int| 0 <= a < ks2.len() && 0 <= c < ks2.len() && a != c implies ks2[a] != ks2[c] by {
                    if a < ks.len() && c < ks.len() {
                        assert(ks2[a] == ks[a] && ks2[c] == ks[c]);
                    } else if a < ks.len() {
                        assert(ks[a] != k);
                    } else {
                        assert(ks[c] != k);
                    }
                }
            }
            assert forall|b: int| 0 <= b < bs2.len() implies #[trigger] bs2[b].len() > 0 by {
                if b < bs.len() {
                    assert(bs2[b] == bs[b]);
                }
            }
            assert forall|b: int, j: int| 0 <= b < bs2.len() && 0 <= j < bs2[b].len() implies 0 <= #[trigger] bs2[b][j] < n
                && bucket_key(ls[bs2[b][j]]) == ks2[b] by {
                if b < bs.len() {
                    assert(bs2[b][j] == bs[b][j]);
                }
            }
            assert forall|b: int, j1: int, j2: int| 0 <= b < bs2.len() && 0 <= j1 < j2 < bs2[b].len() implies #[trigger] bs2[b][j1]
                < #[trigger] bs2[b][j2] by {
                if b < bs.len() {
                    assert(bs2[b][j1] == bs[b][j1] && bs2[b][j2] == bs[b][j2]);
                }
            }
            assert forall|x: int| 0 <= x < n implies #[trigger] in_some_bucket(bs2, x) by {
                if x < last {
                    assert(in_some_bucket(bs, x));
                    let (b, j) = choose|b: int, j: int| 0 <= b < bs.len() && 0 <= j < bs[b].len() && #[trigger] bs[b][j] == x;
                    assert(bs2[b][j] == x);
                } else {
                    assert(bs2[bs.len() as int][0] == x);
                }
            }
        }
    }
}

/// Bucketing partitions the leaves: each leaf lands in exactly one bucket,
/// buckets keep their leaves in order, and two leaves share a bucket exactly
/// when they share a tree position and an authored line.
pub proof fn law_buckets_partition(ls: Seq<LeafV>)
    ensures
        partitions(ls, ls.len(), bucket_fold(ls, ls.len()).0, bucket_fold(ls, ls.len()).1),
{
    lemma_bucket_partition(ls, ls.len());
}

/// Index of `(a, b)` among the pairs of `keys`, or their count.
fn find_pair(keys: &Vec<(String, String)>, a: &str, b: &str) -> (r: usize)
    ensures
        r as int == index_of(keys@.map_values(|p: (String, String)| (p.0@, p.1@)), (a@, b@)),
{
    let ghost kv = keys@.map_values(|p: (String, String)| (p.0@, p.1@));
    let mut i: usize = 0;
    while i < keys.len()
        invariant
            i <= keys@.len(),
            kv == keys@.map_values(|p: (String, String)| (p.0@, p.1@)),
            forall|j: int| 0 <= j < i ==> #[trigger] kv[j] != (a@, b@),
        decreases keys.len() - i,
    {
        if str_eq(keys[i].0.as_str(), a) && str_eq(keys[i].1.as_str(), b) {
            proof {
                lemma_index_of_unique(kv, (a@, b@), i as int);
            }
            return i;
        }
        i = i + 1;
    }
    proof {
        lemma_index_of_unique(kv, (a@, b@), i as int);
    }
    i
}

/// Bucket leaves by `(position, authored stroke)`, in first-seen order.
pub fn group(leaves: &Vec<Leaf>) -> (r: Grouped)
    ensures
        grouped_view(r) == group_spec(leaves_view(leaves@)),
{
    let ghost lv = leaves_view(leaves@);
    let mut keys: Vec<(String, String)> = Vec::new();
    let mut buckets: Vec<Vec<usize>> = Vec::new();
    let mut n: usize = 0;
    while n < leaves.len()
        invariant
            n <= leaves@.len(),
            lv == leaves_view(leaves@),
            keys@.map_values(|p: (String, String)| (p.0@, p.1@)) == bucket_fold(lv, n as nat).0,
            buckets@.map_values(|b: Vec<usize>| b@.map_values(|x: usize| x as int)) == bucket_fold(lv, n as nat).1,
        decreases leaves.len() - n,
    {
        let leaf = &leaves[n];
        assert(lv[n as int] == leaf_view(*leaf));
        proof {
            lemma_bucket_fold(lv, n as nat);
        }
        let ghost kv0 = keys@.map_values(|p: (String, String)| (p.0@, p.1@));
        let ghost bv0 = buckets@.map_values(|b: Vec<usize>| b@.map_values(|x: usize| x as int));
        let i = find_pair(&keys, leaf.position.as_str(), leaf.entry.source.stroke_raw.as_str());
        if i < keys.len() {
            let mut b = buckets[i].clone();
            assert(b@ == buckets@[i as int]@);
            let ghost b0 = b@;
            b.push(n);
            assert(b@.map_values(|x: usize| x as int) =~= b0.map_values(|x: usize| x as int).push(n as int));
            buckets.set(i, b);
            assert(buckets@.map_values(|b: Vec<usize>| b@.map_values(|x: usize| x as int)) =~= bv0.update(
                i as int,
                bv0[i as int].push(n as int),
            ));
        } else {
            keys.push((copy_str(leaf.position.as_str()), copy_str(leaf.entry.source.stroke_raw.as_str())));
            assert(keys@.map_values(|p: (String, String)| (p.0@, p.1@)) =~= kv0.push(bucket_key(lv[n as int])));
            let mut b: Vec<usize> = Vec::new();
            b.push(n);
            assert(b@.map_values(|x: usize| x as int) =~= seq![n as int]);
            buckets.push(b);
            assert(buckets@.map_values(|b: Vec<usize>| b@.map_values(|x: usize| x as int)) =~= bv0.push(seq![n as int]));
        }
        n = n + 1;
    }
    proof {
        lemma_bucket_fold(lv, n as nat);
        let bv = buckets@.map_values(|b: Vec<usize>| b@.map_values(|x: usize| x as int));
        assert forall|i: int, j: int| 0 <= i < buckets@.len() && 0 <= j < buckets@[i]@.len() implies #[trigger] buckets@[i]@[j] < leaves@.len() by {
            assert(bv[i] == buckets@[i]@.map_values(|x: usize| x as int));
            assert(bv[i][j] == buckets@[i]@[j] as int);
        }
    }
    emit(leaves, &buckets)
}

/// Index of `k` among the keys of `m`, or its length.
fn find_kids(m: &Vec<(String, Vec<String>)>, k: &str) -> (r: usize)
    ensures
        r as int == index_of(kids_view(m@).map_values(|p: (Seq<char>, Seq<Seq<char>>)| p.0), k@),
{
    let ghost ks = kids_view(m@).map_values(|p: (Seq<char>, Seq<Seq<char>>)| p.0);
    let mut i: usize = 0;
    while i < m.len()
        invariant
            i <= m@.len(),
            ks == kids_view(m@).map_values(|p: (Seq<char>, Seq<Seq<char>>)| p.0),
            forall|j: int| 0 <= j < i ==> #[trigger] ks[j] != k@,
        decreases m.len() - i,
    {
        assert(ks[i as int] == m@[i as int].0@);
        if str_eq(m[i].0.as_str(), k) {
            proof {
                lemma_index_of_unique(ks, k@, i as int);
            }
            return i;
        }
        i = i + 1;
    }
    proof {
        lemma_index_of_unique(ks, k@, i as int);
    }
    i
}

/// Append `v` to the list under `k`, adding a record for `k` at the end
/// when it has none.
pub fn push_kid(m: &mut Vec<(String, Vec<String>)>, k: &str, v: String)
    ensures
        kids_view(final(m)@) == kids_append(kids_view(old(m)@), k@, v@),
{
    let ghost m0 = kids_view(m@);
    let i = find_kids(m, k);
    proof {
        lemma_index_of(m0.map_values(|p: (Seq<char>, Seq<Seq<char>>)| p.0), k@);
    }
    if i < m.len() {
        let (key, mut list) = m.remove(i);
        let ghost l0 = strs_view(list@);
        list.push(v);
        let ghost lv = strs_view(list@);
        assert(lv == l0.push(v@));
        assert(key@ == m0[i as int].0);
        m.insert(i, (key, list));
        assert(kids_view(m@) =~= m0.update(i as int, (k@, m0[i as int].1.push(v@))));
    } else {
        let mut list: Vec<String> = Vec::new();
        let ghost vv = v@;
        list.push(v);
        assert(strs_view(list@) =~= seq![vv]);
        m.push((copy_str(k), list));
        assert(kids_view(m@) =~= m0.push((k@, seq![vv])));
    }
}

/// The synthetic key of an axis.
fn axis_key(line: usize, idx: usize) -> (r: String)
    ensures
        r@ == axis_key_spec(line, idx as int),
{
    let mut s = String::new();
    s.push('#');
    push_decimal(&mut s, line as u64);
    s.push('.');
    push_decimal(&mut s, idx as u64);
    s
}

/// Turn each bucket into either a plain leaf reference (a single leaf) or a
/// synthetic axis node (several), recording both the per-position children
/// list and the axis metadata. Buckets are numbered by their place in the
/// input: one authored line can produce several buckets at different tree
/// depths, so its line alone is no unique axis identity.
fn emit(leaves: &Vec<Leaf>, buckets: &Vec<Vec<usize>>) -> (r: Grouped)
    requires
        forall|i: int, j: int| 0 <= i < buckets@.len() && 0 <= j < buckets@[i]@.len() ==> #[trigger] buckets@[i]@[j] < leaves@.len(),
    ensures
        grouped_view(r) == emit_fold(
            leaves_view(leaves@),
            buckets@.map_values(|b: Vec<usize>| b@.map_values(|x: usize| x as int)),
            buckets@.len(),
        ),
{
    let ghost lv = leaves_view(leaves@);
    let ghost bv = buckets@.map_values(|b: Vec<usize>| b@.map_values(|x: usize| x as int));
    let mut children_of: Vec<(String, Vec<String>)> = Vec::new();
    let mut axes: Vec<(String, Axis)> = Vec::new();
    assert(kids_view(children_of@) =~= Seq::<(Seq<char>, Seq<Seq<char>>)>::empty());
    assert(axes@.map_values(|p: (String, Axis)| (p.0@, axis_view(p.1))) =~= Seq::<(Seq<char>, AxisV)>::empty());
    let mut idx: usize = 0;
    while idx < buckets.len()
        invariant
            idx <= buckets@.len(),
            lv == leaves_view(leaves@),
            bv == buckets@.map_values(|b: Vec<usize>| b@.map_values(|x: usize| x as int)),
            forall|i: int, j: int| 0 <= i < buckets@.len() && 0 <= j < buckets@[i]@.len() ==> #[trigger] buckets@[i]@[j] < leaves@.len(),
            grouped_view(Grouped { children_of, axes }) == emit_fold(lv, bv, idx as nat),
        decreases buckets.len() - idx,
    {
        let bucket = &buckets[idx];
        let ghost b = bv[idx as int];
        assert(b == bucket@.map_values(|x: usize| x as int));
        if bucket.len() > 0 {
            assert(bucket@[0] < leaves@.len());
            let first = &leaves[bucket[0]];
            assert(lv[b[0]] == leaf_view(*first));
            if bucket.len() == 1 {
                push_kid(&mut children_of, first.position.as_str(), copy_str(first.key.as_str()));
            } else {
                let ak = axis_key(first.entry.source.line, idx);
                let k = kind(first.entry);
                let mut choices: Vec<Choice> = Vec::new();
                let mut j: usize = 0;
                while j < bucket.len()
                    invariant
                        j <= bucket@.len(),
                        b == bucket@.map_values(|x: usize| x as int),
                        lv == leaves_view(leaves@),
                        forall|q: int| 0 <= q < bucket@.len() ==> #[trigger] bucket@[q] < leaves@.len(),
                        k == kind_spec(lv[b[0]].entry),
                        choices@.map_values(|c: Choice| choice_view(c)) == bucket_choices(lv, b, k).take(j as int),
                    decreases bucket.len() - j,
                {
                    assert(bucket@[j as int] < leaves@.len());
                    let l = &leaves[bucket[j]];
                    assert(lv[b[j as int]] == leaf_view(*l));
                    let c = Choice { label: label(l.entry, k), key: copy_str(l.key.as_str()) };
                    let ghost cv0 = choices@.map_values(|c: Choice| choice_view(c));
                    let ghost cv = choice_view(c);
                    choices.push(c);
                    assert(choices@.map_values(|c: Choice| choice_view(c)) =~= cv0.push(cv));
                    assert(bucket_choices(lv, b, k).take(j + 1) =~= bucket_choices(lv, b, k).take(j as int).push(cv));
                    j = j + 1;
                }
                assert(bucket_choices(lv, b, k).take(j as int) =~= bucket_choices(lv, b, k));
                push_kid(&mut children_of, first.position.as_str(), copy_str(ak.as_str()));
                let ghost a0 = axes@.map_values(|p: (String, Axis)| (p.0@, axis_view(p.1)));
                let ax = Axis { kind: k, choices };
                let ghost axv = axis_view(ax);
                let ghost akv = ak@;
                axes.push((ak, ax));
                assert(axes@.map_values(|p: (String, Axis)| (p.0@, axis_view(p.1))) =~= a0.push((akv, axv)));
            }
        }
        idx = idx + 1;
    }
    Grouped { children_of, axes }
}

} // verus!
