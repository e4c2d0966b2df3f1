//! Sub-stroke parsing and canonical rendering.
use vstd::prelude::*;
use crate::error::StrokeError;
use crate::text::{chars_of, char_string, concat3, string_of, push_str};

verus! {

broadcast use vstd::seq_lib::group_seq_properties;

/// Left-bank keys in canonical steno order.
pub open spec fn left_order() -> Seq<char> {
    seq!['S', 'T', 'K', 'P', 'W', 'H', 'R']
}

/// Middle keys (vowels and `*`) in canonical steno order.
pub open spec fn mid_order() -> Seq<char> {
    seq!['A', 'O', '*', 'E', 'U']
}

/// Right-bank keys in canonical steno order.
pub open spec fn right_order() -> Seq<char> {
    seq!['F', 'R', 'P', 'B', 'L', 'G', 'T', 'S', 'D', 'Z']
}

/// Membership in the middle bank.
pub open spec fn spec_is_mid(c: char) -> bool {
    c == 'A' || c == 'O' || c == '*' || c == 'E' || c == 'U'
}

/// Membership in the left bank.
pub open spec fn spec_is_left(c: char) -> bool {
    c == 'S' || c == 'T' || c == 'K' || c == 'P' || c == 'W' || c == 'H' || c == 'R'
}

/// Membership in the right bank.
pub open spec fn spec_is_right(c: char) -> bool {
    c == 'F' || c == 'R' || c == 'P' || c == 'B' || c == 'L' || c == 'G' || c == 'T' || c == 'S'
        || c == 'D' || c == 'Z'
}

/// Left-bank keys in canonical order, as a vector.
pub fn left_order_vec() -> (v: Vec<char>)
    ensures
        v@ == left_order(),
{
    vec!['S', 'T', 'K', 'P', 'W', 'H', 'R']
}

/// Middle keys in canonical order, as a vector.
pub fn mid_order_vec() -> (v: Vec<char>)
    ensures
        v@ == mid_order(),
{
    vec!['A', 'O', '*', 'E', 'U']
}

/// Right-bank keys in canonical order, as a vector.
pub fn right_order_vec() -> (v: Vec<char>)
    ensures
        v@ == right_order(),
{
    vec!['F', 'R', 'P', 'B', 'L', 'G', 'T', 'S', 'D', 'Z']
}

/// True when `ch` is a middle (vowel or `*`) key.
pub fn is_mid(ch: char) -> (b: bool)
    ensures
        b == spec_is_mid(ch),
{
    matches!(ch, 'A' | 'O' | '*' | 'E' | 'U')
}

/// True when `ch` is a left-bank key.
pub fn is_left(ch: char) -> (b: bool)
    ensures
        b == spec_is_left(ch),
{
    matches!(ch, 'S' | 'T' | 'K' | 'P' | 'W' | 'H' | 'R')
}

/// True when `ch` is a right-bank key.
pub fn is_right(ch: char) -> (b: bool)
    ensures
        b == spec_is_right(ch),
{
    matches!(ch, 'F' | 'R' | 'P' | 'B' | 'L' | 'G' | 'T' | 'S' | 'D' | 'Z')
}

/// Pushing `x` adds exactly `x` to the characters contained.
pub proof fn lemma_push_contains(s: Seq<char>, x: char)
    ensures
        forall|c: char| #[trigger] s.push(x).contains(c) <==> (s.contains(c) || c == x),
{
    assert forall|c: char| #[trigger] s.push(x).contains(c) <==> (s.contains(c) || c == x) by {
        if s.push(x).contains(c) {
            let w = choose|w: int| 0 <= w < s.len() + 1 && s.push(x)[w] == c;
            if w < s.len() {
                assert(s[w] == c);
            }
        }
        if s.contains(c) {
            let w = choose|w: int| 0 <= w < s.len() && s[w] == c;
            assert(s.push(x)[w] == c);
        }
        if c == x {
            assert(s.push(x)[s.len() as int] == c);
        }
    }
}

/// The set of characters occurring in `s`.
pub open spec fn set_of(s: Seq<char>) -> Set<char> {
    Set::new(|c: char| s.contains(c))
}

/// An unordered set of keys within one bank. Rendering re-imposes canonical
/// order, so insertion order never matters; duplicates collapse silently.
#[derive(Debug)]
pub struct KeySet {
    /// The distinct keys present, in insertion order.
    keys: Vec<char>,
}

impl View for KeySet {
    type V = Seq<char>;

    closed spec fn view(&self) -> Seq<char> {
        self.keys@
    }
}

impl Default for KeySet {
    fn default() -> (r: Self)
        ensures
            r@ == Seq::<char>::empty(),
    {
        KeySet { keys: Vec::new() }
    }
}

impl KeySet {
    /// Well-formed: no key appears twice.
    pub open spec fn wf(&self) -> bool {
        self@.no_duplicates()
    }

    /// An empty key set.
    pub fn empty() -> (r: Self)
        ensures
            r@ == Seq::<char>::empty(),
            r.wf(),
    {
        KeySet { keys: Vec::new() }
    }

    /// A copy of this key set.
    pub fn copy(&self) -> (r: Self)
        ensures
            r@ == self@,
    {
        let mut keys: Vec<char> = Vec::new();
        let mut i: usize = 0;
        while i < self.keys.len()
            invariant
                i <= self.keys@.len(),
                keys@ == self.keys@.take(i as int),
            decreases self.keys.len() - i,
        {
            keys.push(self.keys[i]);
            i = i + 1;
        }
        assert(self.keys@.take(self.keys@.len() as int) == self.keys@);
        KeySet { keys }
    }

    /// True when `ch` is present.
    pub fn contains(&self, ch: char) -> (b: bool)
        ensures
            b == self@.contains(ch),
    {
        let mut i: usize = 0;
        while i < self.keys.len()
            invariant
                i <= self.keys@.len(),
                forall|j: int| 0 <= j < i ==> self.keys@[j] != ch,
            decreases self.keys.len() - i,
        {
            if self.keys[i] == ch {
                return true;
            }
            i = i + 1;
        }
        false
    }

    /// Add `ch`; a duplicate is a no-op (set semantics).
    pub fn insert(&mut self, ch: char)
        requires
            old(self).wf(),
        ensures
            final(self).wf(),
            final(self)@ == (if old(self)@.contains(ch) {
                old(self)@
            } else {
                old(self)@.push(ch)
            }),
            forall|c: char| #[trigger] final(self)@.contains(c) <==> (old(self)@.contains(c) || c == ch),
    {
        if !self.contains(ch) {
            let ghost o = self@;
            self.keys.push(ch);
            assert forall|c: char| #[trigger] self@.contains(c) <==> (o.contains(c) || c == ch) by {
                if self@.contains(c) {
                    let w = choose|w: int| 0 <= w < self@.len() && self@[w] == c;
                    if w < o.len() {
                        assert(o[w] == c);
                    }
                }
                if o.contains(c) {
                    let w = choose|w: int| 0 <= w < o.len() && o[w] == c;
                    assert(self@[w] == c);
                }
                if c == ch {
                    assert(self@[o.len() as int] == c);
                }
            }
        }
    }

    /// The keys in insertion order.
    pub fn keys(&self) -> (v: Vec<char>)
        ensures
            v@ == self@,
    {
        self.copy().keys
    }
}

/// One sub-stroke decomposed into its canonical key sets.
#[derive(Debug)]
pub struct StrokeKeys {
    /// Number-bar flag (`#` prefix).
    pub num: bool,
    /// Left-bank keys.
    pub left: KeySet,
    /// Middle (vowel/`*`) keys.
    pub mid: KeySet,
    /// Right-bank keys.
    pub right: KeySet,
}

impl Default for StrokeKeys {
    fn default() -> (r: Self)
        ensures
            !r.num,
            r.left@ == Seq::<char>::empty(),
            r.mid@ == Seq::<char>::empty(),
            r.right@ == Seq::<char>::empty(),
    {
        StrokeKeys { num: false, left: KeySet::empty(), mid: KeySet::empty(), right: KeySet::empty() }
    }
}

impl StrokeKeys {
    /// Every bank is duplicate-free.
    pub open spec fn wf(&self) -> bool {
        self.left.wf() && self.mid.wf() && self.right.wf()
    }
}

/// First index in `s` whose character satisfies `p` (or `s.len()`).
pub open spec fn first_where(s: Seq<char>, p: spec_fn(char) -> bool) -> int
    decreases s.len(),
{
    if s.len() == 0 {
        0
    } else if p(s[0]) {
        0
    } else {
        1 + first_where(s.drop_first(), p)
    }
}

/// `first_where` is the least index satisfying `p`, or the length.
pub proof fn lemma_first_where(s: Seq<char>, p: spec_fn(char) -> bool)
    ensures
        0 <= first_where(s, p) <= s.len(),
        first_where(s, p) < s.len() ==> p(s[first_where(s, p)]),
        forall|j: int| 0 <= j < first_where(s, p) ==> !p(#[trigger] s[j]),
    decreases s.len(),
{
    if s.len() > 0 && !p(s[0]) {
        lemma_first_where(s.drop_first(), p);
        assert forall|j: int| 0 <= j < first_where(s, p) implies !p(#[trigger] s[j]) by {
            if j > 0 {
                assert(s[j] == s.drop_first()[j - 1]);
            }
        }
    }
}

/// Any index with the least-index property is `first_where`.
pub proof fn lemma_first_where_unique(s: Seq<char>, p: spec_fn(char) -> bool, k: int)
    requires
        0 <= k <= s.len(),
        k < s.len() ==> p(s[k]),
        forall|j: int| 0 <= j < k ==> !p(#[trigger] s[j]),
    ensures
        first_where(s, p) == k,
    decreases s.len(),
{
    if s.len() > 0 && k > 0 {
        assert(!p(s[0]));
        assert forall|j: int| 0 <= j < k - 1 implies !p(#[trigger] s.drop_first()[j]) by {
            assert(s.drop_first()[j] == s[j + 1]);
        }
        lemma_first_where_unique(s.drop_first(), p, k - 1);
    }
}

/// The stroke body after an optional leading `#`.
pub open spec fn stroke_body(s: Seq<char>) -> Seq<char> {
    if s.len() > 0 && s[0] == '#' {
        s.drop_first()
    } else {
        s
    }
}

/// True when the sub-stroke starts with the number bar `#`.
pub open spec fn has_num(s: Seq<char>) -> bool {
    s.len() > 0 && s[0] == '#'
}

/// Predicate: the character is a hyphen.
pub open spec fn is_hyphen(c: char) -> bool {
    c == '-'
}

/// Predicate: the character is not a middle key.
pub open spec fn not_mid(c: char) -> bool {
    !spec_is_mid(c)
}

/// Index of the first hyphen in the body (or its length).
pub open spec fn hyphen_index(b: Seq<char>) -> int {
    first_where(b, |c: char| is_hyphen(c))
}

/// Index of the first middle key in a hyphen-free body (or its length).
pub open spec fn mid_start(b: Seq<char>) -> int {
    first_where(b, |c: char| spec_is_mid(c))
}

/// End of the run of middle keys starting at `mid_start`.
pub open spec fn mid_end(b: Seq<char>) -> int {
    mid_start(b) + first_where(b.skip(mid_start(b)), |c: char| not_mid(c))
}

/// `c` occurs in `s[lo..hi]`.
pub open spec fn occurs_in(s: Seq<char>, lo: int, hi: int, c: char) -> bool {
    exists|k: int| lo <= k < hi && s[k] == c
}

/// The sub-stroke is well formed: with a hyphen, left/middle keys before it
/// and right keys after it (a second hyphen is rejected); without one, left
/// keys, then a run of middle keys, then right keys.
pub open spec fn stroke_ok(s: Seq<char>) -> bool {
    let b = stroke_body(s);
    let h = hyphen_index(b);
    if h < b.len() {
        &&& forall|k: int| h < k < b.len() ==> spec_is_right(#[trigger] b[k])
        &&& forall|k: int| 0 <= k < h ==> spec_is_mid(#[trigger] b[k]) || spec_is_left(b[k])
    } else {
        &&& forall|k: int| 0 <= k < mid_start(b) ==> spec_is_left(#[trigger] b[k])
        &&& forall|k: int| mid_end(b) <= k < b.len() ==> spec_is_right(#[trigger] b[k])
    }
}

/// The left-bank keys of a well-formed sub-stroke.
pub open spec fn parsed_left(s: Seq<char>) -> Set<char> {
    let b = stroke_body(s);
    let h = hyphen_index(b);
    if h < b.len() {
        Set::new(|c: char| occurs_in(b, 0, h, c) && !spec_is_mid(c))
    } else {
        Set::new(|c: char| occurs_in(b, 0, mid_start(b), c))
    }
}

/// The middle keys of a well-formed sub-stroke.
pub open spec fn parsed_mid(s: Seq<char>) -> Set<char> {
    let b = stroke_body(s);
    let h = hyphen_index(b);
    if h < b.len() {
        Set::new(|c: char| occurs_in(b, 0, h, c) && spec_is_mid(c))
    } else {
        Set::new(|c: char| occurs_in(b, mid_start(b), mid_end(b), c))
    }
}

/// The right-bank keys of a well-formed sub-stroke.
pub open spec fn parsed_right(s: Seq<char>) -> Set<char> {
    let b = stroke_body(s);
    let h = hyphen_index(b);
    if h < b.len() {
        Set::new(|c: char| occurs_in(b, h + 1, b.len() as int, c))
    } else {
        Set::new(|c: char| occurs_in(b, mid_end(b), b.len() as int, c))
    }
}

/// The distinct characters of `s` satisfying `p`, in order of first
/// occurrence.
pub open spec fn dedup_where(s: Seq<char>, p: spec_fn(char) -> bool) -> Seq<char>
    decreases s.len(),
{
    if s.len() == 0 {
        Seq::empty()
    } else {
        let prev = dedup_where(s.drop_last(), p);
        if p(s.last()) && !prev.contains(s.last()) {
            prev.push(s.last())
        } else {
            prev
        }
    }
}

/// Every character.
pub open spec fn any_char(c: char) -> bool {
    true
}

/// The left-bank keys of a well-formed sub-stroke, in order of first
/// appearance.
pub open spec fn left_seq(s: Seq<char>) -> Seq<char> {
    let b = stroke_body(s);
    let h = hyphen_index(b);
    if h < b.len() {
        dedup_where(b.take(h), |c: char| not_mid(c))
    } else {
        dedup_where(b.take(mid_start(b)), |c: char| any_char(c))
    }
}

/// The middle keys of a well-formed sub-stroke, in order of first
/// appearance.
pub open spec fn mid_seq(s: Seq<char>) -> Seq<char> {
    let b = stroke_body(s);
    let h = hyphen_index(b);
    if h < b.len() {
        dedup_where(b.take(h), |c: char| spec_is_mid(c))
    } else {
        dedup_where(b.subrange(mid_start(b), mid_end(b)), |c: char| any_char(c))
    }
}

/// The right-bank keys of a well-formed sub-stroke, in order of first
/// appearance.
pub open spec fn right_seq(s: Seq<char>) -> Seq<char> {
    let b = stroke_body(s);
    let h = hyphen_index(b);
    if h < b.len() {
        dedup_where(b.skip(h + 1), |c: char| any_char(c))
    } else {
        dedup_where(b.skip(mid_end(b)), |c: char| any_char(c))
    }
}

/// `k` is the decomposition of the sub-stroke `s`.
pub open spec fn parsed_as(k: StrokeKeys, s: Seq<char>) -> bool {
    &&& k.wf()
    &&& k.num == has_num(s)
    &&& set_of(k.left@) == parsed_left(s)
    &&& set_of(k.mid@) == parsed_mid(s)
    &&& set_of(k.right@) == parsed_right(s)
}

/// Adding position `hi` to a range adds exactly the character there.
pub proof fn lemma_occurs_step(s: Seq<char>, lo: int, hi: int)
    requires
        0 <= lo <= hi < s.len(),
    ensures
        forall|c: char| #[trigger] occurs_in(s, lo, hi + 1, c) == (occurs_in(s, lo, hi, c) || s[hi] == c),
{
    assert forall|c: char| #[trigger] occurs_in(s, lo, hi + 1, c) == (occurs_in(s, lo, hi, c) || s[hi] == c) by {
        if occurs_in(s, lo, hi + 1, c) && s[hi] != c {
            let w = choose|w: int| lo <= w < hi + 1 && s[w] == c;
            assert(lo <= w < hi && s[w] == c);
        }
        if occurs_in(s, lo, hi, c) {
            let w = choose|w: int| lo <= w < hi && s[w] == c;
            assert(lo <= w < hi + 1 && s[w] == c);
        }
        if s[hi] == c {
            assert(lo <= hi < hi + 1 && s[hi] == c);
        }
    }
}

/// An empty range holds no character.
pub proof fn lemma_occurs_empty(s: Seq<char>, lo: int)
    ensures
        forall|c: char| !#[trigger] occurs_in(s, lo, lo, c),
{
}

/// Predicate: the key belongs to neither the left nor the middle bank.
pub open spec fn not_left_mid(c: char) -> bool {
    !(spec_is_mid(c) || spec_is_left(c))
}

/// Predicate: the key is not a left-bank key.
pub open spec fn not_left(c: char) -> bool {
    !spec_is_left(c)
}

/// Predicate: the key is not a right-bank key.
pub open spec fn not_right(c: char) -> bool {
    !spec_is_right(c)
}

/// The message for key `ch` out of place in `orig`.
pub open spec fn bad_key_msg(what: Seq<char>, ch: char, orig: Seq<char>, note: Seq<char>) -> Seq<char> {
    what + " \""@ + seq![ch] + "\" in \""@ + orig + "\""@ + note
}

/// Why a malformed sub-stroke is rejected: a second hyphen, else the first
/// key outside the bank it appears in, scanning left to right.
pub open spec fn stroke_error(s: Seq<char>) -> Seq<char> {
    let b = stroke_body(s);
    let h = hyphen_index(b);
    if h < b.len() {
        let before = b.take(h);
        let after = b.skip(h + 1);
        let bl = first_where(before, |c: char| not_left_mid(c));
        if first_where(after, |c: char| is_hyphen(c)) < after.len() {
            "two hyphens in \""@ + s + "\""@
        } else if bl < h {
            bad_key_msg("bad left/mid key"@, b[bl], s, ""@)
        } else {
            bad_key_msg("bad right key"@, after[first_where(after, |c: char| not_right(c))], s, ""@)
        }
    } else {
        let ms = mid_start(b);
        let bl = first_where(b.take(ms), |c: char| not_left(c));
        let tail = b.skip(mid_end(b));
        if bl < ms {
            bad_key_msg("bad left key"@, b[bl], s, ""@)
        } else {
            bad_key_msg("bad right key"@, tail[first_where(tail, |c: char| not_right(c))], s, " (mid key after right keys?)"@)
        }
    }
}

fn bad_key_error(what: &str, ch: char, orig: &str, note: &str) -> (e: StrokeError)
    ensures
        e.spec_message() == bad_key_msg(what@, ch, orig@, note@),
{
    let mut m = concat3(what, " \"", char_string(ch).as_str());
    push_str(&mut m, "\" in \"");
    push_str(&mut m, orig);
    push_str(&mut m, "\"");
    push_str(&mut m, note);
    proof {
        assert(m@ =~= bad_key_msg(what@, ch, orig@, note@));
    }
    StrokeError::new(m)
}

/// Parse one sub-stroke (no `/`) into its canonical key sets.
///
/// Fails on a second hyphen or any key outside the bank it appears in.
pub fn parse_stroke(s: &str) -> (r: Result<StrokeKeys, StrokeError>)
    ensures
        r is Ok <==> stroke_ok(s@),
        r matches Ok(k) ==> parsed_as(k, s@),
        r matches Ok(k) ==> k.left@ == left_seq(s@) && k.mid@ == mid_seq(s@) && k.right@ == right_seq(s@),
        r matches Err(e) ==> e.spec_message() == stroke_error(s@),
{
    let cs = chars_of(s);
    let mut keys = StrokeKeys::default();
    let mut body: Vec<char> = Vec::new();
    let mut i: usize = 0;
    if cs.len() > 0 && cs[0] == '#' {
        keys.num = true;
        i = 1;
    }
    let ghost start = i;
    while i < cs.len()
        invariant
            start <= i <= cs@.len(),
            body@ == cs@.subrange(start as int, i as int),
        decreases cs.len() - i,
    {
        body.push(cs[i]);
        i = i + 1;
    }
    assert(body@ == stroke_body(s@));
    let ghost b = body@;
    let mut h: usize = 0;
    while h < body.len() && body[h] != '-'
        invariant
            h <= body@.len(),
            forall|j: int| 0 <= j < h ==> body@[j] != '-',
        decreases body.len() - h,
    {
        h = h + 1;
    }
    proof {
        assert forall|j: int| 0 <= j < h implies !is_hyphen(#[trigger] b[j]) by {}
        lemma_first_where_unique(b, |c: char| is_hyphen(c), h as int);
    }
    if h < body.len() {
        parse_hyphenated(s, &body, h, &mut keys)?;
    } else {
        parse_unhyphenated(s, &body, &mut keys)?;
    }
    Ok(keys)
}

/// Fill `keys` from a hyphenated sub-stroke body: left/mid keys before the
/// hyphen at `h`, right-bank keys after it.
#[verifier::loop_isolation(false)]
#[verifier::spinoff_prover]
#[verifier::rlimit(60)]
fn parse_hyphenated(orig: &str, b: &Vec<char>, h: usize, keys: &mut StrokeKeys) -> (r: Result<(), StrokeError>)
    requires
        b@ == stroke_body(orig@),
        h < b@.len(),
        hyphen_index(b@) == h,
        old(keys).num == has_num(orig@),
        old(keys).left@ == Seq::<char>::empty(),
        old(keys).mid@ == Seq::<char>::empty(),
        old(keys).right@ == Seq::<char>::empty(),
    ensures
        r is Ok <==> stroke_ok(orig@),
        r is Ok ==> parsed_as(*final(keys), orig@),
        r is Ok ==> final(keys).left@ == left_seq(orig@) && final(keys).mid@ == mid_seq(orig@) && final(keys).right@
            == right_seq(orig@),
        r matches Err(e) ==> e.spec_message() == stroke_error(orig@),
{
    assert(b@.len() == b.len());
    let ghost before = b@.take(h as int);
    let ghost after = b@.skip(h + 1);
    let mut k: usize = h + 1;
    while k < b.len()
        invariant
            h < k <= b@.len(),
            forall|j: int| h < j < k ==> b@[j] != '-',
        decreases b.len() - k,
    {
        if b[k] == '-' {
            proof {
                assert forall|j: int| 0 <= j < k - h - 1 implies !is_hyphen(#[trigger] after[j]) by {
                    assert(after[j] == b@[h + 1 + j]);
                }
                assert(after[k - h - 1] == b@[k as int]);
                lemma_first_where_unique(after, |c: char| is_hyphen(c), k - h - 1);
            }
            return Err(concat3_err("two hyphens in \"", orig, "\""));
        }
        k = k + 1;
    }
    proof {
        assert forall|j: int| 0 <= j < after.len() implies !is_hyphen(#[trigger] after[j]) by {
            assert(after[j] == b@[h + 1 + j]);
        }
        lemma_first_where_unique(after, |c: char| is_hyphen(c), after.len() as int);
    }
    let mut i: usize = 0;
    proof {
        lemma_occurs_empty(b@, 0);
        assert(b@.take(0) == Seq::<char>::empty());
    }
    while i < h
        invariant
            b@ == stroke_body(orig@),
            h < b@.len(),
            hyphen_index(b@) == h,
            i <= h,
            keys.wf(),
            keys.num == has_num(orig@),
            keys.right@ == Seq::<char>::empty(),
            forall|j: int| 0 <= j < i ==> spec_is_mid(#[trigger] b@[j]) || spec_is_left(b@[j]),
            forall|c: char| #[trigger] keys.left@.contains(c) <==> (occurs_in(b@, 0, i as int, c) && !spec_is_mid(c)),
            forall|c: char| #[trigger] keys.mid@.contains(c) <==> (occurs_in(b@, 0, i as int, c) && spec_is_mid(c)),
            keys.left@ == dedup_where(b@.take(i as int), |c: char| not_mid(c)),
            keys.mid@ == dedup_where(b@.take(i as int), |c: char| spec_is_mid(c)),
        decreases h - i,
    {
        let ch = b[i];
        proof {
            lemma_occurs_step(b@, 0, i as int);
        }
        if is_mid(ch) {
            keys.mid.insert(ch);
        } else if is_left(ch) {
            keys.left.insert(ch);
        } else {
            proof {
                assert forall|j: int| 0 <= j < i implies !not_left_mid(#[trigger] before[j]) by {
                    assert(before[j] == b@[j]);
                }
                assert(before[i as int] == ch);
                lemma_first_where_unique(before, |c: char| not_left_mid(c), i as int);
            }
            return Err(bad_key_error("bad left/mid key", ch, orig, ""));
        }
        i = i + 1;
        proof {
            let ii = (i - 1) as int;
            assert(b@[ii] == ch);
            assert(b@.take(i as int).drop_last() == b@.take(ii));
            assert(b@.take(i as int).last() == ch);
            assert forall|c: char| #[trigger] keys.left@.contains(c) <==> (occurs_in(b@, 0, i as int, c) && !spec_is_mid(c)) by {
                assert(occurs_in(b@, 0, ii + 1, c) == (occurs_in(b@, 0, ii, c) || b@[ii] == c));
                if c == ch {
                    assert(keys.left@.contains(c) <==> !spec_is_mid(c));
                } else {
                    assert(keys.left@.contains(c) <==> (occurs_in(b@, 0, ii, c) && !spec_is_mid(c)));
                }
            }
            assert forall|c: char| #[trigger] keys.mid@.contains(c) <==> (occurs_in(b@, 0, i as int, c) && spec_is_mid(c)) by {
                assert(occurs_in(b@, 0, i as int, c) == (occurs_in(b@, 0, i - 1, c) || b@[i - 1] == c));
            }
        }
    }
    assert(i == h);
    assert(forall|c: char| #[trigger] keys.left@.contains(c) <==> (occurs_in(b@, 0, h as int, c) && !spec_is_mid(c)));
    assert(forall|c: char| #[trigger] keys.mid@.contains(c) <==> (occurs_in(b@, 0, h as int, c) && spec_is_mid(c)));
    let mut k: usize = h + 1;
    proof {
        lemma_occurs_empty(b@, h + 1);
        assert(b@.subrange(h + 1, h + 1) == Seq::<char>::empty());
        assert(b@.take(h as int) == b@.take(i as int));
    }
    while k < b.len()
        invariant
            b@ == stroke_body(orig@),
            h < k <= b@.len(),
            hyphen_index(b@) == h,
            keys.wf(),
            keys.num == has_num(orig@),
            forall|j: int| 0 <= j < h ==> spec_is_mid(#[trigger] b@[j]) || spec_is_left(b@[j]),
            forall|c: char| #[trigger] keys.left@.contains(c) <==> (occurs_in(b@, 0, h as int, c) && !spec_is_mid(c)),
            forall|c: char| #[trigger] keys.mid@.contains(c) <==> (occurs_in(b@, 0, h as int, c) && spec_is_mid(c)),
            forall|j: int| h < j < k ==> spec_is_right(#[trigger] b@[j]),
            forall|c: char| #[trigger] keys.right@.contains(c) <==> occurs_in(b@, h + 1, k as int, c),
            keys.left@ == dedup_where(b@.take(h as int), |c: char| not_mid(c)),
            keys.mid@ == dedup_where(b@.take(h as int), |c: char| spec_is_mid(c)),
            keys.right@ == dedup_where(b@.subrange(h + 1, k as int), |c: char| any_char(c)),
        decreases b.len() - k,
    {
        let ch = b[k];
        proof {
            lemma_occurs_step(b@, h + 1, k as int);
        }
        if !is_right(ch) {
            proof {
                assert forall|j: int| 0 <= j < h implies !not_left_mid(#[trigger] before[j]) by {
                    assert(before[j] == b@[j]);
                }
                lemma_first_where_unique(before, |c: char| not_left_mid(c), h as int);
                assert forall|j: int| 0 <= j < k - h - 1 implies !not_right(#[trigger] after[j]) by {
                    assert(after[j] == b@[h + 1 + j]);
                }
                assert(after[k - h - 1] == ch);
                lemma_first_where_unique(after, |c: char| not_right(c), k - h - 1);
            }
            return Err(bad_key_error("bad right key", ch, orig, ""));
        }
        keys.right.insert(ch);
        k = k + 1;
        proof {
            assert(b@.subrange(h + 1, k as int).drop_last() == b@.subrange(h + 1, k - 1));
            assert(b@.subrange(h + 1, k as int).last() == ch);
        }
    }
    proof {
        assert(b@.subrange(h + 1, b@.len() as int) == b@.skip(h + 1));
        assert(set_of(keys.left@) =~= parsed_left(orig@));
        assert(set_of(keys.mid@) =~= parsed_mid(orig@));
        assert(set_of(keys.right@) =~= parsed_right(orig@));
    }
    Ok(())
}

fn concat3_err(a: &str, b: &str, c: &str) -> (e: StrokeError)
    ensures
        e.spec_message() == a@ + b@ + c@,
{
    StrokeError::new(concat3(a, b, c))
}

/// Fill `keys` from a hyphen-free sub-stroke body: left keys up to the first
/// middle key, then the run of middle keys, then right keys (a middle key
/// after a right key, or a right-only key before any middle, is rejected).
#[verifier::rlimit(80)]
fn parse_unhyphenated(orig: &str, b: &Vec<char>, keys: &mut StrokeKeys) -> (r: Result<(), StrokeError>)
    requires
        b@ == stroke_body(orig@),
        hyphen_index(b@) == b@.len(),
        old(keys).num == has_num(orig@),
        old(keys).left@ == Seq::<char>::empty(),
        old(keys).mid@ == Seq::<char>::empty(),
        old(keys).right@ == Seq::<char>::empty(),
    ensures
        r is Ok <==> stroke_ok(orig@),
        r is Ok ==> parsed_as(*final(keys), orig@),
        r is Ok ==> final(keys).left@ == left_seq(orig@) && final(keys).mid@ == mid_seq(orig@) && final(keys).right@
            == right_seq(orig@),
        r matches Err(e) ==> e.spec_message() == stroke_error(orig@),
{
    let ghost bb = b@;
    let ghost ms = mid_start(bb);
    let ghost me = mid_end(bb);
    proof {
        lemma_first_where(bb, |c: char| spec_is_mid(c));
        lemma_first_where(bb.skip(ms), |c: char| not_mid(c));
        assert forall|j: int| ms <= j < me implies spec_is_mid(#[trigger] bb[j]) by {
            assert(bb[j] == bb.skip(ms)[j - ms]);
            assert(!not_mid(bb.skip(ms)[j - ms]));
        }
        if me < bb.len() {
            assert(bb[me] == bb.skip(ms)[me - ms]);
        }
        lemma_occurs_empty(bb, 0);
    }
    // Left bank: everything before the first middle key.
    let mut i: usize = 0;
    assert(bb.take(0) == Seq::<char>::empty());
    while i < b.len() && !is_mid(b[i])
        invariant
            b@ == bb,
            bb == stroke_body(orig@),
            hyphen_index(bb) == bb.len(),
            ms == mid_start(bb),
            me == mid_end(bb),
            0 <= ms <= me <= bb.len(),
            forall|j: int| 0 <= j < ms ==> !spec_is_mid(#[trigger] bb[j]),
            ms < bb.len() ==> spec_is_mid(bb[ms]),
            i <= ms,
            keys.wf(),
            keys.num == has_num(orig@),
            keys.mid@ == Seq::<char>::empty(),
            keys.right@ == Seq::<char>::empty(),
            forall|j: int| 0 <= j < i ==> spec_is_left(#[trigger] bb[j]),
            forall|c: char| #[trigger] keys.left@.contains(c) <==> occurs_in(bb, 0, i as int, c),
            keys.left@ == dedup_where(bb.take(i as int), |c: char| any_char(c)),
        decreases b.len() - i,
    {
        let ch = b[i];
        proof {
            lemma_occurs_step(bb, 0, i as int);
        }
        if !is_left(ch) {
            assert(i < ms);
            assert(!spec_is_left(bb[i as int]));
            assert(!(forall|k: int| 0 <= k < mid_start(bb) ==> spec_is_left(#[trigger] bb[k])));
            assert(!stroke_ok(orig@));
            proof {
                let lt = bb.take(ms);
                assert forall|j: int| 0 <= j < i implies !not_left(#[trigger] lt[j]) by {
                    assert(lt[j] == bb[j]);
                }
                assert(lt[i as int] == ch);
                lemma_first_where_unique(lt, |c: char| not_left(c), i as int);
            }
            return Err(bad_key_error("bad left key", ch, orig, ""));
        }
        keys.left.insert(ch);
        i = i + 1;
        proof {
            assert(bb.take(i as int).drop_last() == bb.take(i - 1));
            assert(bb.take(i as int).last() == ch);
        }
    }
    assert(i == ms);
    proof {
        lemma_occurs_empty(bb, ms);
        assert(bb.subrange(ms, ms) == Seq::<char>::empty());
    }
    // Middle run.
    while i < b.len() && is_mid(b[i])
        invariant
            b@ == bb,
            bb == stroke_body(orig@),
            hyphen_index(bb) == bb.len(),
            ms == mid_start(bb),
            me == mid_end(bb),
            0 <= ms <= me <= bb.len(),
            forall|j: int| ms <= j < me ==> spec_is_mid(#[trigger] bb[j]),
            me < bb.len() ==> !spec_is_mid(bb[me]),
            ms <= i <= me,
            keys.wf(),
            keys.num == has_num(orig@),
            keys.right@ == Seq::<char>::empty(),
            forall|j: int| 0 <= j < ms ==> spec_is_left(#[trigger] bb[j]),
            forall|c: char| #[trigger] keys.left@.contains(c) <==> occurs_in(bb, 0, ms, c),
            forall|c: char| #[trigger] keys.mid@.contains(c) <==> occurs_in(bb, ms, i as int, c),
            keys.left@ == dedup_where(bb.take(ms), |c: char| any_char(c)),
            keys.mid@ == dedup_where(bb.subrange(ms, i as int), |c: char| any_char(c)),
        decreases b.len() - i,
    {
        let ch = b[i];
        proof {
            assert(i < me);
            lemma_occurs_step(bb, ms, i as int);
        }
        keys.mid.insert(ch);
        i = i + 1;
        proof {
            assert(bb.subrange(ms, i as int).drop_last() == bb.subrange(ms, i - 1));
            assert(bb.subrange(ms, i as int).last() == ch);
        }
    }
    assert(i == me);
    proof {
        lemma_occurs_empty(bb, me);
        assert(bb.subrange(me, me) == Seq::<char>::empty());
    }
    // Right bank: everything after the middle run.
    while i < b.len()
        invariant
            b@ == bb,
            bb == stroke_body(orig@),
            hyphen_index(bb) == bb.len(),
            ms == mid_start(bb),
            me == mid_end(bb),
            0 <= ms <= me <= bb.len(),
            me <= i <= bb.len(),
            keys.wf(),
            keys.num == has_num(orig@),
            forall|j: int| 0 <= j < ms ==> spec_is_left(#[trigger] bb[j]),
            forall|c: char| #[trigger] keys.left@.contains(c) <==> occurs_in(bb, 0, ms, c),
            forall|c: char| #[trigger] keys.mid@.contains(c) <==> occurs_in(bb, ms, me, c),
            forall|j: int| me <= j < i ==> spec_is_right(#[trigger] bb[j]),
            forall|c: char| #[trigger] keys.right@.contains(c) <==> occurs_in(bb, me, i as int, c),
            keys.left@ == dedup_where(bb.take(ms), |c: char| any_char(c)),
            keys.mid@ == dedup_where(bb.subrange(ms, me), |c: char| any_char(c)),
            keys.right@ == dedup_where(bb.subrange(me, i as int), |c: char| any_char(c)),
        decreases b.len() - i,
    {
        let ch = b[i];
        proof {
            lemma_occurs_step(bb, me, i as int);
        }
        if !is_right(ch) {
            assert(!spec_is_right(bb[i as int]));
            assert(!(forall|k: int| mid_end(bb) <= k < bb.len() ==> spec_is_right(#[trigger] bb[k])));
            assert(!stroke_ok(orig@));
            proof {
                let lt = bb.take(ms);
                assert forall|j: int| 0 <= j < ms implies !not_left(#[trigger] lt[j]) by {
                    assert(lt[j] == bb[j]);
                }
                lemma_first_where_unique(lt, |c: char| not_left(c), ms);
                let tail = bb.skip(me);
                assert forall|j: int| 0 <= j < i - me implies !not_right(#[trigger] tail[j]) by {
                    assert(tail[j] == bb[me + j]);
                }
                assert(tail[i - me] == ch);
                lemma_first_where_unique(tail, |c: char| not_right(c), i - me);
            }
            return Err(bad_key_error("bad right key", ch, orig, " (mid key after right keys?)"));
        }
        keys.right.insert(ch);
        i = i + 1;
        proof {
            assert(bb.subrange(me, i as int).drop_last() == bb.subrange(me, i - 1));
            assert(bb.subrange(me, i as int).last() == ch);
        }
    }
    proof {
        assert(bb.subrange(me, bb.len() as int) == bb.skip(me));
        assert(set_of(keys.left@) =~= parsed_left(orig@));
        assert(set_of(keys.mid@) =~= parsed_mid(orig@));
        assert(set_of(keys.right@) =~= parsed_right(orig@));
    }
    Ok(())
}

/// The keys of `order` that lie in `ks`, in `order`'s order.
pub open spec fn pick(order: Seq<char>, ks: Set<char>) -> Seq<char> {
    order.filter(|c: char| ks.contains(c))
}

/// Canonical rendering of a sub-stroke from its key sets: `#`, then each
/// bank's keys in canonical order, with a hyphen before right-bank keys only
/// when there is no middle key.
pub open spec fn render_keys(num: bool, left: Set<char>, mid: Set<char>, right: Set<char>) -> Seq<char> {
    let l = pick(left_order(), left);
    let m = pick(mid_order(), mid);
    let r = pick(right_order(), right);
    let hash = if num { seq!['#'] } else { Seq::<char>::empty() };
    if r.len() > 0 && m.len() == 0 {
        hash + l + seq!['-'] + r
    } else {
        hash + l + m + r
    }
}

/// Keys of `order` present in `set`, in canonical order.
fn pick_keys(order: &Vec<char>, set: &KeySet) -> (r: Vec<char>)
    ensures
        r@ == pick(order@, set_of(set@)),
{
    let mut out: Vec<char> = Vec::new();
    let mut i: usize = 0;
    while i < order.len()
        invariant
            i <= order@.len(),
            out@ == pick(order@.take(i as int), set_of(set@)),
        decreases order.len() - i,
    {
        let c = order[i];
        proof {
            reveal_with_fuel(Seq::<_>::filter, 1);
            assert(order@.take(i + 1).drop_last() == order@.take(i as int));
        }
        if set.contains(c) {
            out.push(c);
        }
        i = i + 1;
    }
    assert(order@.take(order@.len() as int) == order@);
    out
}

/// Render canonical key sets back to a sub-stroke string.
pub fn render_stroke(k: &StrokeKeys) -> (r: String)
    ensures
        r@ == render_keys(k.num, set_of(k.left@), set_of(k.mid@), set_of(k.right@)),
{
    let left = pick_keys(&left_order_vec(), &k.left);
    let mid = pick_keys(&mid_order_vec(), &k.mid);
    let right = pick_keys(&right_order_vec(), &k.right);
    let mut v: Vec<char> = Vec::new();
    if k.num {
        v.push('#');
    }
    let mut tail = left;
    if right.len() > 0 && mid.len() == 0 {
        tail.push('-');
    } else {
        let mut m = mid;
        tail.append(&mut m);
    }
    let mut rr = right;
    tail.append(&mut rr);
    v.append(&mut tail);
    string_of(v.as_slice())
}

/// Adding a key to a bank adds it to the bank's set whether or not it was
/// there already: duplicates collapse, and only the set reaches rendering.
pub proof fn law_keyset_insert(s: Seq<char>, c: char)
    ensures
        set_of(if s.contains(c) {
            s
        } else {
            s.push(c)
        }) == set_of(s).insert(c),
        s.no_duplicates() ==> (if s.contains(c) {
            s
        } else {
            s.push(c)
        }).no_duplicates(),
{
    if s.contains(c) {
        assert(set_of(s) =~= set_of(s).insert(c));
    } else {
        assert forall|x: char| #[trigger] s.push(c).contains(x) <==> (s.contains(x) || x == c) by {
            if s.push(c).contains(x) {
                let k = choose|k: int| 0 <= k < s.push(c).len() && s.push(c)[k] == x;
                if k < s.len() {
                    assert(s[k] == x);
                }
            }
            if s.contains(x) {
                let k = choose|k: int| 0 <= k < s.len() && s[k] == x;
                assert(s.push(c)[k] == x);
            }
            if x == c {
                assert(s.push(c)[s.len() as int] == c);
            }
        }
        assert(set_of(s.push(c)) =~= set_of(s).insert(c));
    }
}

/// The keys of `order` kept by `pick` are exactly those in `ks`.
proof fn lemma_pick(order: Seq<char>, ks: Set<char>)
    ensures
        forall|c: char| #[trigger] pick(order, ks).contains(c) <==> (order.contains(c) && ks.contains(c)),
        forall|i: int| 0 <= i < pick(order, ks).len() ==> order.contains(#[trigger] pick(order, ks)[i]) && ks.contains(
            pick(order, ks)[i],
        ),
{
    broadcast use vstd::seq_lib::group_filter_ensures;
    let p = pick(order, ks);
    assert forall|c: char| #[trigger] p.contains(c) <==> (order.contains(c) && ks.contains(c)) by {
        if p.contains(c) {
            order.lemma_filter_contains_rev(|x: char| ks.contains(x), c);
            let k = choose|k: int| 0 <= k < p.len() && p[k] == c;
            assert(ks.contains(p[k]));
        }
        if order.contains(c) && ks.contains(c) {
            let k = choose|k: int| 0 <= k < order.len() && order[k] == c;
            order.lemma_filter_contains(|x: char| ks.contains(x), k);
        }
    }
    assert forall|i: int| 0 <= i < p.len() implies order.contains(#[trigger] p[i]) && ks.contains(p[i]) by {
        assert(p.contains(p[i]));
    }
}

/// The canonical orders hold exactly their banks' keys.
proof fn lemma_orders()
    ensures
        forall|c: char| #[trigger] left_order().contains(c) <==> spec_is_left(c),
        forall|c: char| #[trigger] mid_order().contains(c) <==> spec_is_mid(c),
        forall|c: char| #[trigger] right_order().contains(c) <==> spec_is_right(c),
{
    let lo = left_order();
    let mo = mid_order();
    let ro = right_order();
    assert forall|c: char| #[trigger] lo.contains(c) <==> spec_is_left(c) by {
        if lo.contains(c) {
            let k = choose|k: int| 0 <= k < lo.len() && lo[k] == c;
        }
        if c == 'S' { assert(lo[0] == c); } else if c == 'T' { assert(lo[1] == c); } else if c == 'K' { assert(lo[2] == c); }
        else if c == 'P' { assert(lo[3] == c); } else if c == 'W' { assert(lo[4] == c); } else if c == 'H' { assert(lo[5] == c); }
        else if c == 'R' { assert(lo[6] == c); }
    }
    assert forall|c: char| #[trigger] mo.contains(c) <==> spec_is_mid(c) by {
        if mo.contains(c) {
            let k = choose|k: int| 0 <= k < mo.len() && mo[k] == c;
        }
        if c == 'A' { assert(mo[0] == c); } else if c == 'O' { assert(mo[1] == c); } else if c == '*' { assert(mo[2] == c); }
        else if c == 'E' { assert(mo[3] == c); } else if c == 'U' { assert(mo[4] == c); }
    }
    assert forall|c: char| #[trigger] ro.contains(c) <==> spec_is_right(c) by {
        if ro.contains(c) {
            let k = choose|k: int| 0 <= k < ro.len() && ro[k] == c;
        }
        if c == 'F' { assert(ro[0] == c); } else if c == 'R' { assert(ro[1] == c); } else if c == 'P' { assert(ro[2] == c); }
        else if c == 'B' { assert(ro[3] == c); } else if c == 'L' { assert(ro[4] == c); } else if c == 'G' { assert(ro[5] == c); }
        else if c == 'T' { assert(ro[6] == c); } else if c == 'S' { assert(ro[7] == c); } else if c == 'D' { assert(ro[8] == c); }
        else if c == 'Z' { assert(ro[9] == c); }
    }
}

/// A character occurs in `b[lo..hi]` iff it occurs in `seg`, when that
/// range of `b` is `seg`.
proof fn lemma_occurs_segment(b: Seq<char>, lo: int, hi: int, seg: Seq<char>)
    requires
        0 <= lo,
        hi == lo + seg.len(),
        hi <= b.len(),
        b.subrange(lo, hi) == seg,
    ensures
        forall|c: char| #[trigger] occurs_in(b, lo, hi, c) <==> seg.contains(c),
{
    assert forall|c: char| #[trigger] occurs_in(b, lo, hi, c) <==> seg.contains(c) by {
        if occurs_in(b, lo, hi, c) {
            let k = choose|k: int| lo <= k < hi && b[k] == c;
            assert(seg[k - lo] == b[k]);
        }
        if seg.contains(c) {
            let k = choose|k: int| 0 <= k < seg.len() && seg[k] == c;
            assert(b[lo + k] == seg[k]);
        }
    }
}

/// The body of a canonical rendering (what follows the number bar).
pub open spec fn render_body(left: Set<char>, mid: Set<char>, right: Set<char>) -> Seq<char> {
    let l = pick(left_order(), left);
    let m = pick(mid_order(), mid);
    let r = pick(right_order(), right);
    if r.len() > 0 && m.len() == 0 {
        l + seq!['-'] + r
    } else {
        l + m + r
    }
}

/// The banks' keys as `pick` renders them: each a key of its bank.
proof fn lemma_picked_banks(left: Set<char>, mid: Set<char>, right: Set<char>)
    requires
        forall|c: char| left.contains(c) ==> spec_is_left(c),
        forall|c: char| mid.contains(c) ==> spec_is_mid(c),
        forall|c: char| right.contains(c) ==> spec_is_right(c),
    ensures
        forall|i: int| 0 <= i < pick(left_order(), left).len() ==> spec_is_left(#[trigger] pick(left_order(), left)[i]),
        forall|i: int| 0 <= i < pick(mid_order(), mid).len() ==> spec_is_mid(#[trigger] pick(mid_order(), mid)[i]),
        forall|i: int| 0 <= i < pick(right_order(), right).len() ==> spec_is_right(#[trigger] pick(right_order(), right)[i]),
        forall|c: char| #[trigger] pick(left_order(), left).contains(c) <==> left.contains(c),
        forall|c: char| #[trigger] pick(mid_order(), mid).contains(c) <==> mid.contains(c),
        forall|c: char| #[trigger] pick(right_order(), right).contains(c) <==> right.contains(c),
{
    lemma_orders();
    lemma_pick(left_order(), left);
    lemma_pick(mid_order(), mid);
    lemma_pick(right_order(), right);
}

/// The rendering is the number bar (when set) followed by its body.
proof fn lemma_render_split(num: bool, left: Set<char>, mid: Set<char>, right: Set<char>)
    requires
        forall|c: char| left.contains(c) ==> spec_is_left(c),
        forall|c: char| mid.contains(c) ==> spec_is_mid(c),
        forall|c: char| right.contains(c) ==> spec_is_right(c),
    ensures
        stroke_body(render_keys(num, left, mid, right)) == render_body(left, mid, right),
        has_num(render_keys(num, left, mid, right)) == num,
{
    lemma_picked_banks(left, mid, right);
    let l = pick(left_order(), left);
    let m = pick(mid_order(), mid);
    let r = pick(right_order(), right);
    let s = render_keys(num, left, mid, right);
    let body = render_body(left, mid, right);
    let hyph = r.len() > 0 && m.len() == 0;
    assert(body.len() > 0 ==> body[0] != '#') by {
        if body.len() > 0 {
            if l.len() > 0 {
                assert(body[0] == l[0]);
            } else if hyph {
                assert(body[0] == '-');
            } else if m.len() > 0 {
                assert(body[0] == m[0]);
            } else {
                assert(body[0] == r[0]);
            }
        }
    }
    if num {
        assert(s =~= seq!['#'] + body);
        assert(s.drop_first() =~= body);
    } else {
        assert(s =~= body);
    }
}

/// The hyphenated form (right keys, no middle keys) parses back.
#[verifier::spinoff_prover]
proof fn lemma_parse_hyphenated(s: Seq<char>, left: Set<char>, mid: Set<char>, right: Set<char>)
    requires
        forall|c: char| left.contains(c) ==> spec_is_left(c),
        forall|c: char| mid.contains(c) ==> spec_is_mid(c),
        forall|c: char| right.contains(c) ==> spec_is_right(c),
        pick(right_order(), right).len() > 0,
        pick(mid_order(), mid).len() == 0,
        stroke_body(s) == render_body(left, mid, right),
    ensures
        stroke_ok(s),
        parsed_left(s) == left,
        parsed_mid(s) == mid,
        parsed_right(s) == right,
{
    lemma_picked_banks(left, mid, right);
    let l = pick(left_order(), left);
    let r = pick(right_order(), right);
    let body = stroke_body(s);
    assert(body == l + seq!['-'] + r);
    let h = l.len() as int;
    assert forall|j: int| 0 <= j < h implies !(|c: char| is_hyphen(c))(#[trigger] body[j]) by {
        assert(body[j] == l[j]);
    }
    assert(body[h] == '-');
    lemma_first_where_unique(body, |c: char| is_hyphen(c), h);
    assert(hyphen_index(body) == h);
    assert forall|k: int| h < k < body.len() implies spec_is_right(#[trigger] body[k]) by {
        assert(body[k] == r[k - h - 1]);
    }
    assert forall|k: int| 0 <= k < h implies spec_is_mid(#[trigger] body[k]) || spec_is_left(body[k]) by {
        assert(body[k] == l[k]);
    }
    assert(body.subrange(0, h) =~= l);
    lemma_occurs_segment(body, 0, h, l);
    assert(body.subrange(h + 1, body.len() as int) =~= r);
    lemma_occurs_segment(body, h + 1, body.len() as int, r);
    assert forall|c: char| !mid.contains(c) by {
        if mid.contains(c) {
            assert(pick(mid_order(), mid).contains(c));
        }
    }
    assert forall|c: char| parsed_left(s).contains(c) <==> left.contains(c) by {
        assert(parsed_left(s).contains(c) == (occurs_in(body, 0, h, c) && !spec_is_mid(c)));
    }
    assert forall|c: char| parsed_right(s).contains(c) <==> right.contains(c) by {
        assert(parsed_right(s).contains(c) == occurs_in(body, h + 1, body.len() as int, c));
    }
    assert forall|c: char| parsed_mid(s).contains(c) <==> mid.contains(c) by {
        assert(parsed_mid(s).contains(c) == (occurs_in(body, 0, h, c) && spec_is_mid(c)));
    }
    assert(parsed_left(s) =~= left);
    assert(parsed_mid(s) =~= mid);
    assert(parsed_right(s) =~= right);
}

/// Where the banks of an unhyphenated body `l + m + r` start and end.
#[verifier::spinoff_prover]
proof fn lemma_plain_bounds(body: Seq<char>, l: Seq<char>, m: Seq<char>, r: Seq<char>)
    requires
        body == l + m + r,
        forall|i: int| 0 <= i < l.len() ==> spec_is_left(#[trigger] l[i]),
        forall|i: int| 0 <= i < m.len() ==> spec_is_mid(#[trigger] m[i]),
        forall|i: int| 0 <= i < r.len() ==> spec_is_right(#[trigger] r[i]),
        m.len() == 0 ==> r.len() == 0,
    ensures
        hyphen_index(body) == body.len(),
        mid_start(body) == l.len(),
        mid_end(body) == l.len() + m.len(),
{
    assert forall|j: int| 0 <= j < body.len() implies !(|c: char| is_hyphen(c))(#[trigger] body[j]) by {
        if j < l.len() {
            assert(body[j] == l[j]);
        } else if j < l.len() + m.len() {
            assert(body[j] == m[j - l.len()]);
        } else {
            assert(body[j] == r[j - l.len() - m.len()]);
        }
    }
    lemma_first_where_unique(body, |c: char| is_hyphen(c), body.len() as int);
    let ms = l.len() as int;
    assert forall|j: int| 0 <= j < ms implies !(|c: char| spec_is_mid(c))(#[trigger] body[j]) by {
        assert(body[j] == l[j]);
    }
    if m.len() > 0 {
        assert(body[ms] == m[0]);
    }
    lemma_first_where_unique(body, |c: char| spec_is_mid(c), ms);
    let rest = body.skip(ms);
    assert forall|j: int| 0 <= j < m.len() implies !(|c: char| not_mid(c))(#[trigger] rest[j]) by {
        assert(rest[j] == m[j]);
    }
    if r.len() > 0 {
        assert(rest[m.len() as int] == r[0]);
    }
    lemma_first_where_unique(rest, |c: char| not_mid(c), m.len() as int);
}

/// The unhyphenated form (middle keys, or no right keys) parses back.
#[verifier::spinoff_prover]
proof fn lemma_parse_plain(s: Seq<char>, left: Set<char>, mid: Set<char>, right: Set<char>)
    requires
        forall|c: char| left.contains(c) ==> spec_is_left(c),
        forall|c: char| mid.contains(c) ==> spec_is_mid(c),
        forall|c: char| right.contains(c) ==> spec_is_right(c),
        !(pick(right_order(), right).len() > 0 && pick(mid_order(), mid).len() == 0),
        stroke_body(s) == render_body(left, mid, right),
    ensures
        stroke_ok(s),
        parsed_left(s) == left,
        parsed_mid(s) == mid,
        parsed_right(s) == right,
{
    lemma_picked_banks(left, mid, right);
    let l = pick(left_order(), left);
    let m = pick(mid_order(), mid);
    let r = pick(right_order(), right);
    let body = stroke_body(s);
    assert(body == l + m + r);
    lemma_plain_bounds(body, l, m, r);
    let ms = l.len() as int;
    let me = (l.len() + m.len()) as int;
    let n = body.len() as int;
    assert forall|k: int| 0 <= k < mid_start(body) implies spec_is_left(#[trigger] body[k]) by {
        assert(body[k] == l[k]);
    }
    assert forall|k: int| mid_end(body) <= k < body.len() implies spec_is_right(#[trigger] body[k]) by {
        assert(body[k] == r[k - me]);
    }
    assert(body.subrange(0, ms) =~= l);
    lemma_occurs_segment(body, 0, ms, l);
    assert(body.subrange(ms, me) =~= m);
    lemma_occurs_segment(body, ms, me, m);
    assert(body.subrange(me, n) =~= r);
    lemma_occurs_segment(body, me, n, r);
    assert forall|c: char| parsed_left(s).contains(c) <==> left.contains(c) by {
        assert(parsed_left(s).contains(c) == occurs_in(body, 0, ms, c));
    }
    assert forall|c: char| parsed_mid(s).contains(c) <==> mid.contains(c) by {
        assert(parsed_mid(s).contains(c) == occurs_in(body, ms, me, c));
    }
    assert forall|c: char| parsed_right(s).contains(c) <==> right.contains(c) by {
        assert(parsed_right(s).contains(c) == occurs_in(body, me, n, c));
    }
    assert(parsed_left(s) =~= left);
    assert(parsed_mid(s) =~= mid);
    assert(parsed_right(s) =~= right);
}

/// Parsing the canonical rendering of key sets gives those sets back: the
/// rendering is well formed and keeps the number bar and every bank, so
/// rendering is a right inverse of parsing and a parsed-and-rendered stroke
/// is in canonical form.
pub proof fn law_parse_render(num: bool, left: Set<char>, mid: Set<char>, right: Set<char>)
    requires
        forall|c: char| left.contains(c) ==> spec_is_left(c),
        forall|c: char| mid.contains(c) ==> spec_is_mid(c),
        forall|c: char| right.contains(c) ==> spec_is_right(c),
    ensures
        stroke_ok(render_keys(num, left, mid, right)),
        has_num(render_keys(num, left, mid, right)) == num,
        parsed_left(render_keys(num, left, mid, right)) == left,
        parsed_mid(render_keys(num, left, mid, right)) == mid,
        parsed_right(render_keys(num, left, mid, right)) == right,
{
    let s = render_keys(num, left, mid, right);
    lemma_render_split(num, left, mid, right);
    if pick(right_order(), right).len() > 0 && pick(mid_order(), mid).len() == 0 {
        lemma_parse_hyphenated(s, left, mid, right);
    } else {
        lemma_parse_plain(s, left, mid, right);
    }
}

/// A stroke segment already in canonical form: it parses, and rendering its
/// banks gives it back unchanged.
pub open spec fn canonical_stroke(s: Seq<char>) -> bool {
    stroke_ok(s) && s == render_keys(has_num(s), parsed_left(s), parsed_mid(s), parsed_right(s))
}

/// A rendering holds only the number bar, the hyphen and bank keys; in
/// particular never a stroke separator `/`.
pub proof fn lemma_render_chars(num: bool, left: Set<char>, mid: Set<char>, right: Set<char>)
    requires
        forall|c: char| left.contains(c) ==> spec_is_left(c),
        forall|c: char| mid.contains(c) ==> spec_is_mid(c),
        forall|c: char| right.contains(c) ==> spec_is_right(c),
    ensures
        forall|i: int|
            0 <= i < render_keys(num, left, mid, right).len() ==> {
                let c = #[trigger] render_keys(num, left, mid, right)[i];
                c == '#' || c == '-' || spec_is_left(c) || spec_is_mid(c) || spec_is_right(c)
            },
{
    lemma_picked_banks(left, mid, right);
    let l = pick(left_order(), left);
    let m = pick(mid_order(), mid);
    let r = pick(right_order(), right);
    let hash = if num { seq!['#'] } else { Seq::<char>::empty() };
    let s = render_keys(num, left, mid, right);
    assert forall|i: int| 0 <= i < s.len() implies {
        let c = #[trigger] s[i];
        c == '#' || c == '-' || spec_is_left(c) || spec_is_mid(c) || spec_is_right(c)
    } by {
        let a = hash.len() as int;
        let b = a + l.len();
        if i < a {
            assert(s[i] == '#');
        } else if i < b {
            assert(s[i] == l[i - a]);
        } else if r.len() > 0 && m.len() == 0 {
            if i == b {
                assert(s[i] == '-');
            } else {
                assert(s[i] == r[i - b - 1]);
            }
        } else if i < b + m.len() {
            assert(s[i] == m[i - b]);
        } else {
            assert(s[i] == r[i - b - m.len()]);
        }
    }
}

/// A rendering holds a hyphen exactly when it has right-bank keys and no
/// middle key.
pub proof fn law_render_hyphen(num: bool, left: Set<char>, mid: Set<char>, right: Set<char>)
    requires
        forall|c: char| left.contains(c) ==> spec_is_left(c),
        forall|c: char| mid.contains(c) ==> spec_is_mid(c),
        forall|c: char| right.contains(c) ==> spec_is_right(c),
    ensures
        render_keys(num, left, mid, right).contains('-') <==> ((forall|c: char| !mid.contains(c)) && exists|c: char|
            right.contains(c)),
{
    lemma_orders();
    lemma_pick(left_order(), left);
    lemma_pick(mid_order(), mid);
    lemma_pick(right_order(), right);
    lemma_picked_banks(left, mid, right);
    let l = pick(left_order(), left);
    let m = pick(mid_order(), mid);
    let r = pick(right_order(), right);
    let hash = if num { seq!['#'] } else { Seq::<char>::empty() };
    let s = render_keys(num, left, mid, right);
    let a = hash.len() as int;
    let b = a + l.len();
    if m.len() == 0 {
        assert forall|c: char| !mid.contains(c) by {
            if mid.contains(c) {
                assert(mid_order().contains(c));
                assert(m.contains(c));
            }
        }
    } else {
        assert(mid.contains(m[0]));
    }
    if r.len() > 0 {
        assert(right.contains(r[0]));
    } else {
        assert forall|c: char| !right.contains(c) by {
            if right.contains(c) {
                assert(right_order().contains(c));
                assert(r.contains(c));
            }
        }
    }
    if r.len() > 0 && m.len() == 0 {
        assert(s[b] == '-');
    } else {
        assert forall|i: int| 0 <= i < s.len() implies s[i] != '-' by {
            if i < a {
                assert(s[i] == '#');
            } else if i < b {
                assert(s[i] == l[i - a]);
                assert(spec_is_left(l[i - a]));
            } else if i < b + m.len() {
                assert(s[i] == m[i - b]);
                assert(spec_is_mid(m[i - b]));
            } else {
                assert(s[i] == r[i - b - m.len()]);
                assert(spec_is_right(r[i - b - m.len()]));
            }
        }
    }
}

/// A well-formed stroke's parsed banks hold only their own bank's keys.
pub proof fn law_parsed_banks(s: Seq<char>)
    requires
        stroke_ok(s),
    ensures
        forall|c: char| parsed_left(s).contains(c) ==> spec_is_left(c),
        forall|c: char| parsed_mid(s).contains(c) ==> spec_is_mid(c),
        forall|c: char| parsed_right(s).contains(c) ==> spec_is_right(c),
{
    let b = stroke_body(s);
    let h = hyphen_index(b);
    lemma_first_where(b, |c: char| is_hyphen(c));
    if h < b.len() {
        assert forall|c: char| parsed_left(s).contains(c) implies spec_is_left(c) by {
            let k = choose|k: int| 0 <= k < h && b[k] == c;
            assert(spec_is_mid(b[k]) || spec_is_left(b[k]));
        }
        assert forall|c: char| parsed_right(s).contains(c) implies spec_is_right(c) by {
            let k = choose|k: int| h + 1 <= k < b.len() && b[k] == c;
            assert(spec_is_right(b[k]));
        }
    } else {
        let ms = mid_start(b);
        lemma_first_where(b, |c: char| spec_is_mid(c));
        lemma_first_where(b.skip(ms), |c: char| not_mid(c));
        assert forall|c: char| parsed_left(s).contains(c) implies spec_is_left(c) by {
            let k = choose|k: int| 0 <= k < ms && b[k] == c;
            assert(spec_is_left(b[k]));
        }
        assert forall|c: char| parsed_mid(s).contains(c) implies spec_is_mid(c) by {
            let k = choose|k: int| ms <= k < mid_end(b) && b[k] == c;
            assert(b.skip(ms)[k - ms] == b[k]);
            assert(!not_mid(b.skip(ms)[k - ms]));
        }
        assert forall|c: char| parsed_right(s).contains(c) implies spec_is_right(c) by {
            let k = choose|k: int| mid_end(b) <= k < b.len() && b[k] == c;
            assert(spec_is_right(b[k]));
        }
    }
}

} // verus!
