//! Count-bank encoding and stroke-merging arithmetic. A bank's keys carry
//! bit weights (LSB-first) so a numeric count merges into a sub-stroke as a
//! set of keys.
use vstd::prelude::*;
use crate::error::StrokeError;
use crate::stroke::keys::{first_where, left_seq, mid_seq, right_seq, stroke_error, lemma_first_where, lemma_first_where_unique, law_parse_render, law_parsed_banks, lemma_push_contains, has_num, is_mid, is_right, parse_stroke, parsed_left, parsed_mid, parsed_right, render_keys, render_stroke, set_of, spec_is_mid, spec_is_right, stroke_ok, KeySet, StrokeKeys};
use crate::text::{char_string, concat3, copy_str, decimal, push_str};

verus! {

/// Which side of the board a count-bank key lives on.
#[derive(Debug, Clone, Copy, PartialEq, Eq, Structural)]
pub enum Side {
    /// Middle bank (vowels / `*`).
    Mid,
    /// Right bank.
    Right,
}

/// One key of a count bank with its bit weight.
#[derive(Debug, Clone, Copy, PartialEq, Eq, Structural)]
pub struct CountBit {
    /// The steno key carrying this bit.
    pub key: char,
    /// Bit weight: `2^i` for the i-th listed key, LSB-first.
    pub weight: u32,
    /// Bank the key belongs to.
    pub side: Side,
}

/// A parsed `@count` bank: keys with weights and the encodable maximum.
#[derive(Debug)]
pub struct CountBank {
    /// Bank keys with their bit weights, lowest first.
    pub bits: Vec<CountBit>,
    /// Inclusive max count the bank can encode (`2^width - 1`).
    pub max: u32,
}

/// The weight of the `i`-th bank key: `2^i`.
pub open spec fn bit_weight(i: int) -> u32 {
    1u32 << (i as u32)
}

/// The largest count a bank of `n` keys encodes: `2^n - 1`.
pub open spec fn bank_max(n: int) -> u32 {
    if n >= 32 {
        u32::MAX
    } else {
        ((1u32 << (n as u32)) - 1) as u32
    }
}

/// A bank spec is legal: at most 32 keys, each a vowel or right-bank key.
pub open spec fn bank_spec_ok(s: Seq<char>) -> bool {
    s.len() <= 32 && forall|i: int| 0 <= i < s.len() ==> spec_is_mid(#[trigger] s[i]) || spec_is_right(s[i])
}

/// The bank side a key belongs to.
pub open spec fn side_of(c: char) -> Side {
    if spec_is_mid(c) {
        Side::Mid
    } else {
        Side::Right
    }
}

proof fn lemma_weight_step(i: u32)
    requires
        i < 31,
    ensures
        (1u32 << i) as int * 2 == (1u32 << ((i + 1) as u32)) as int,
        (1u32 << i) as int * 2 <= u32::MAX,
{
    assert((1u32 << i) as int * 2 == (1u32 << ((i + 1) as u32)) as int && (1u32 << i) as int * 2 <= u32::MAX) by (bit_vector)
        requires
            i < 31,
    ;
}

proof fn lemma_weight_top()
    ensures
        (1u32 << 31u32) as int * 2 > u32::MAX,
        (1u32 << 31u32) as int * 2 - 1 == u32::MAX,
{
    assert((1u32 << 31u32) as int * 2 > u32::MAX && (1u32 << 31u32) as int * 2 - 1 == u32::MAX) by (bit_vector);
}

proof fn lemma_max_step(n: u32)
    requires
        1 <= n <= 31,
    ensures
        (1u32 << ((n - 1) as u32)) as int * 2 - 1 == ((1u32 << n) - 1) as u32,
{
    assert((1u32 << ((n - 1) as u32)) as int * 2 - 1 == ((1u32 << n) - 1) as u32) by (bit_vector)
        requires
            1 <= n <= 31,
    ;
}

/// Predicate: the key can carry a count bit (it is a vowel or right-bank key).
pub open spec fn not_bank_key(c: char) -> bool {
    !(spec_is_mid(c) || spec_is_right(c))
}

/// Why a bank spec is rejected: its first key outside the vowel/right banks,
/// unless 32 legal keys come first, in which case it is too long.
pub open spec fn bank_error(s: Seq<char>) -> Seq<char> {
    let k = first_where(s, |c: char| not_bank_key(c));
    if k < s.len() && k <= 32 {
        "@count key \""@ + seq![s[k]] + "\" is not a vowel or right-bank key"@
    } else {
        "@count spec \""@ + s + "\" is too long to encode"@
    }
}

/// Build a count bank from an `@count` spec.
///
/// The spec lists keys LSB-first, so the i-th listed key carries weight
/// `2^i` (AOEU => 1,2,4,8). Fails when a key is outside the vowel/right
/// banks or the spec is too long to encode in 32 bits.
pub fn count_bank(spec: &str) -> (r: Result<CountBank, StrokeError>)
    ensures
        r is Ok <==> bank_spec_ok(spec@),
        r matches Ok(b) ==> {
            &&& b.bits@.len() == spec@.len()
            &&& forall|i: int| 0 <= i < spec@.len() ==> (#[trigger] b.bits@[i]).key == spec@[i]
                && b.bits@[i].weight == bit_weight(i) && b.bits@[i].side == side_of(spec@[i])
            &&& b.max == bank_max(spec@.len() as int)
        },
        r matches Err(e) ==> e.spec_message() == bank_error(spec@),
{
    let cs = crate::text::chars_of(spec);
    let mut bits: Vec<CountBit> = Vec::new();
    let mut weight: u32 = 1;
    let mut i: usize = 0;
    assert(1u32 << 0u32 == 1u32) by (bit_vector);
    while i < cs.len()
        invariant
            cs@ == spec@,
            i <= cs@.len(),
            i <= 32,
            bits@.len() == i,
            i > 0 ==> weight == bit_weight(i - 1),
            i == 0 ==> weight == 1,
            forall|j: int| 0 <= j < i ==> spec_is_mid(#[trigger] cs@[j]) || spec_is_right(cs@[j]),
            forall|j: int| 0 <= j < i ==> (#[trigger] bits@[j]).key == spec@[j] && bits@[j].weight
                == bit_weight(j) && bits@[j].side == side_of(spec@[j]),
        decreases cs.len() - i,
    {
        let key = cs[i];
        if !is_mid(key) && !is_right(key) {
            proof {
                assert forall|j: int| 0 <= j < i implies !not_bank_key(#[trigger] cs@[j]) by {}
                lemma_first_where_unique(cs@, |c: char| not_bank_key(c), i as int);
            }
            let m = concat3("@count key \"", char_string(key).as_str(), "\" is not a vowel or right-bank key");
            return Err(StrokeError::new(m));
        }
        if i > 0 {
            if i >= 32 {
                proof {
                    lemma_weight_top();
                }
                assert(weight.checked_mul(2) is None);
                proof {
                    lemma_first_where(cs@, |c: char| not_bank_key(c));
                    let k = first_where(cs@, |c: char| not_bank_key(c));
                    if k < cs@.len() && k <= 32 {
                        if k < i {
                            assert(spec_is_mid(cs@[k]) || spec_is_right(cs@[k]));
                        }
                    }
                }
                return Err(StrokeError::new(concat3("@count spec \"", spec, "\" is too long to encode")));
            }
            proof {
                lemma_weight_step((i - 1) as u32);
            }
            weight = weight * 2;
        } else {
            assert(bit_weight(0) == 1u32) by {
                assert(1u32 << 0u32 == 1u32) by (bit_vector);
            }
        }
        let side = if is_mid(key) {
            Side::Mid
        } else {
            Side::Right
        };
        bits.push(CountBit { key, weight, side });
        i = i + 1;
    }
    let n = bits.len();
    let max = if n == 0 {
        0
    } else {
        let last = bits[n - 1].weight;
        if n == 32 {
            proof {
                lemma_weight_top();
            }
            u32::MAX
        } else {
            proof {
                lemma_max_step(n as u32);
                lemma_weight_step((n - 1) as u32);
            }
            last * 2 - 1
        }
    };
    proof {
        if n == 0 {
            assert(bank_max(0) == 0) by {
                assert(((1u32 << 0u32) - 1) as u32 == 0u32) by (bit_vector);
            }
        }
    }
    Ok(CountBank { bits, max })
}

/// Two key sets share no key.
pub open spec fn disjoint(a: Set<char>, b: Set<char>) -> bool {
    forall|c: char| !(#[trigger] a.contains(c) && b.contains(c))
}

/// The message for a key `c` shared by the merged strokes `a` and `b`.
pub open spec fn merge_msg(c: char, a: Seq<char>, b: Seq<char>) -> Seq<char> {
    "merge conflict on \""@ + seq![c] + "\" in \""@ + a + "\" + \""@ + b + "\""@
}

/// The first key of `src` that `dst` also holds.
pub open spec fn first_shared(src: Seq<char>, dst: Seq<char>) -> char {
    src[first_where(src, |c: char| dst.contains(c))]
}

/// Copy `src` keys into `dst`, erroring on any key already present.
fn merge_bank(dst: &mut KeySet, src: &KeySet, a: &str, b: &str) -> (r: Result<(), StrokeError>)
    requires
        old(dst).wf(),
        src.wf(),
    ensures
        r is Ok <==> disjoint(set_of(old(dst)@), set_of(src@)),
        r is Ok ==> final(dst).wf() && set_of(final(dst)@) == set_of(old(dst)@).union(set_of(src@)),
        r matches Err(e) ==> e.spec_message() == merge_msg(first_shared(src@, old(dst)@), a@, b@),
{
    let keys = src.keys();
    let ghost d0 = dst@;
    let mut i: usize = 0;
    while i < keys.len()
        invariant
            keys@ == src@,
            d0 == old(dst)@,
            src@.no_duplicates(),
            i <= keys@.len(),
            dst.wf(),
            forall|c: char| #[trigger] dst@.contains(c) <==> (d0.contains(c) || keys@.take(i as int).contains(c)),
            forall|j: int| 0 <= j < i ==> !d0.contains(#[trigger] keys@[j]),
        decreases keys.len() - i,
    {
        let ch = keys[i];
        if dst.contains(ch) {
            proof {
                if !d0.contains(ch) {
                    let w = choose|w: int| 0 <= w < i && keys@.take(i as int)[w] == ch;
                    assert(keys@[w] == keys@[i as int]);
                }
                assert(src@[i as int] == ch);
                assert(set_of(d0).contains(ch) && set_of(src@).contains(ch));
                assert(!disjoint(set_of(d0), set_of(src@)));
            }
            proof {
                assert forall|j: int| 0 <= j < i implies !((|c: char| d0.contains(c))(#[trigger] src@[j])) by {
                    assert(keys@[j] == src@[j]);
                }
                assert(d0.contains(ch));
                lemma_first_where_unique(src@, |c: char| d0.contains(c), i as int);
            }
            let mut m = concat3("merge conflict on \"", char_string(ch).as_str(), "\" in \"");
            push_str(&mut m, a);
            push_str(&mut m, "\" + \"");
            push_str(&mut m, b);
            push_str(&mut m, "\"");
            proof {
                assert(m@ =~= merge_msg(ch, a@, b@));
            }
            return Err(StrokeError::new(m));
        }
        dst.insert(ch);
        i = i + 1;
        proof {
            assert(keys@.take(i as int) == keys@.take(i - 1).push(ch));
            lemma_push_contains(keys@.take(i - 1), ch);
        }
    }
    proof {
        assert(keys@.take(keys@.len() as int) == keys@);
        assert forall|c: char| !(#[trigger] set_of(d0).contains(c) && set_of(src@).contains(c)) by {
            if set_of(src@).contains(c) {
                let w = choose|w: int| 0 <= w < src@.len() && src@[w] == c;
                assert(!d0.contains(keys@[w]));
            }
        }
        assert(set_of(dst@) =~= set_of(d0).union(set_of(src@)));
    }
    Ok(())
}

/// The union of two sub-strokes' keys, when both parse and share no key.
pub open spec fn merge_spec(a: Seq<char>, b: Seq<char>) -> Option<Seq<char>> {
    if stroke_ok(a) && stroke_ok(b) && disjoint(parsed_left(a), parsed_left(b)) && disjoint(parsed_mid(a), parsed_mid(b))
        && disjoint(parsed_right(a), parsed_right(b)) {
        Some(
            render_keys(
                has_num(a) || has_num(b),
                parsed_left(a).union(parsed_left(b)),
                parsed_mid(a).union(parsed_mid(b)),
                parsed_right(a).union(parsed_right(b)),
            ),
        )
    } else {
        None
    }
}

/// The segment with one more vowel or right-bank key, when legal.
pub open spec fn add_key_spec(segment: Seq<char>, key: char) -> Option<Seq<char>> {
    if !stroke_ok(segment) || !(spec_is_mid(key) || spec_is_right(key)) {
        None
    } else if spec_is_mid(key) {
        if parsed_mid(segment).contains(key) {
            None
        } else {
            Some(render_keys(has_num(segment), parsed_left(segment), parsed_mid(segment).insert(key), parsed_right(segment)))
        }
    } else if parsed_right(segment).contains(key) {
        None
    } else {
        Some(render_keys(has_num(segment), parsed_left(segment), parsed_mid(segment), parsed_right(segment).insert(key)))
    }
}

/// Why `a` and `b` do not merge: the first stroke's parse error, else the
/// second's, else a conflict on the first key of `b`'s left bank, else
/// middle bank, else right bank (in the order `b` lists them) that `a`
/// already holds.
pub open spec fn merge_error_msg(a: Seq<char>, b: Seq<char>) -> Seq<char> {
    if !stroke_ok(a) {
        stroke_error(a)
    } else if !stroke_ok(b) {
        stroke_error(b)
    } else if !disjoint(parsed_left(a), parsed_left(b)) {
        merge_msg(first_shared(left_seq(b), left_seq(a)), a, b)
    } else if !disjoint(parsed_mid(a), parsed_mid(b)) {
        merge_msg(first_shared(mid_seq(b), mid_seq(a)), a, b)
    } else {
        merge_msg(first_shared(right_seq(b), right_seq(a)), a, b)
    }
}


/// Union the keys of two sub-strokes into one.
///
/// Fails when either side fails to parse or the strokes share a key.
pub fn merge_strokes(a: &str, b: &str) -> (r: Result<String, StrokeError>)
    ensures
        r is Ok <==> stroke_ok(a@) && stroke_ok(b@) && disjoint(parsed_left(a@), parsed_left(b@))
            && disjoint(parsed_mid(a@), parsed_mid(b@)) && disjoint(parsed_right(a@), parsed_right(b@)),
        r matches Ok(s) ==> s@ == render_keys(
            has_num(a@) || has_num(b@),
            parsed_left(a@).union(parsed_left(b@)),
            parsed_mid(a@).union(parsed_mid(b@)),
            parsed_right(a@).union(parsed_right(b@)),
        ),
        r matches Err(e) ==> e.spec_message() == merge_error_msg(a@, b@),
{
    let mut ka = match parse_stroke(a) {
        Ok(k) => k,
        Err(e) => return Err(e),
    };
    let kb = match parse_stroke(b) {
        Ok(k) => k,
        Err(e) => return Err(e),
    };
    match merge_bank(&mut ka.left, &kb.left, a, b) {
        Ok(()) => {},
        Err(e) => return Err(e),
    }
    match merge_bank(&mut ka.mid, &kb.mid, a, b) {
        Ok(()) => {},
        Err(e) => return Err(e),
    }
    match merge_bank(&mut ka.right, &kb.right, a, b) {
        Ok(()) => {},
        Err(e) => return Err(e),
    }
    ka.num = ka.num || kb.num;
    Ok(render_stroke(&ka))
}

/// Why adding `key` to `segment` fails: the segment's parse error, else the
/// key's bank, else the key already being there.
pub open spec fn add_key_error(segment: Seq<char>, key: char) -> Seq<char> {
    if !stroke_ok(segment) {
        stroke_error(segment)
    } else if !(spec_is_mid(key) || spec_is_right(key)) {
        "cannot add key \""@ + seq![key] + "\" (not a vowel/right-bank key)"@
    } else {
        "key \""@ + seq![key] + "\" already in \""@ + segment + "\""@
    }
}

/// Add a single key (vowel or right-bank) to a sub-stroke segment.
///
/// Fails when the segment fails to parse, the key is not a vowel/right-bank
/// key, or the key is already present.
pub fn add_key(segment: &str, key: char) -> (r: Result<String, StrokeError>)
    ensures
        r is Ok <==> stroke_ok(segment@) && (spec_is_mid(key) || spec_is_right(key)) && (if spec_is_mid(
            key,
        ) {
            !parsed_mid(segment@).contains(key)
        } else {
            !parsed_right(segment@).contains(key)
        }),
        r matches Ok(s) ==> s@ == (if spec_is_mid(key) {
            render_keys(
                has_num(segment@),
                parsed_left(segment@),
                parsed_mid(segment@).insert(key),
                parsed_right(segment@),
            )
        } else {
            render_keys(
                has_num(segment@),
                parsed_left(segment@),
                parsed_mid(segment@),
                parsed_right(segment@).insert(key),
            )
        }),
        r matches Err(e) ==> e.spec_message() == add_key_error(segment@, key),
{
    let mut keys = match parse_stroke(segment) {
        Ok(k) => k,
        Err(e) => return Err(e),
    };
    if is_mid(key) {
        if keys.mid.contains(key) {
            return Err(already_present(key, segment));
        }
        keys.mid.insert(key);
        proof {
            assert(set_of(keys.mid@) =~= parsed_mid(segment@).insert(key));
        }
    } else if is_right(key) {
        if keys.right.contains(key) {
            return Err(already_present(key, segment));
        }
        keys.right.insert(key);
        proof {
            assert(set_of(keys.right@) =~= parsed_right(segment@).insert(key));
        }
    } else {
        return Err(StrokeError::new(concat3("cannot add key \"", char_string(key).as_str(), "\" (not a vowel/right-bank key)")));
    }
    Ok(render_stroke(&keys))
}

fn already_present(key: char, segment: &str) -> (e: StrokeError)
    ensures
        e.spec_message() == "key \""@ + seq![key] + "\" already in \""@ + segment@ + "\""@,
{
    let mut m = concat3("key \"", char_string(key).as_str(), "\" already in \"");
    push_str(&mut m, segment);
    push_str(&mut m, "\"");
    StrokeError::new(m)
}

/// The keys of `s` whose bit is set in `count`, in listed order.
pub open spec fn chosen_keys(s: Seq<char>, count: u32) -> Seq<char>
    decreases s.len(),
{
    if s.len() == 0 {
        Seq::<char>::empty()
    } else {
        let prev = chosen_keys(s.drop_last(), count);
        if count & bit_weight(s.len() - 1) != 0 {
            prev.push(s.last())
        } else {
            prev
        }
    }
}

/// The chosen keys belonging to the middle bank.
pub open spec fn chosen_mid(s: Seq<char>, count: u32) -> Set<char> {
    Set::new(|c: char| chosen_keys(s, count).contains(c) && spec_is_mid(c))
}

/// The chosen keys belonging to the right bank.
pub open spec fn chosen_right(s: Seq<char>, count: u32) -> Set<char> {
    Set::new(|c: char| chosen_keys(s, count).contains(c) && !spec_is_mid(c))
}

/// `apply_count` succeeds: the bank is legal, the count fits, the segment
/// parses, and the chosen keys are distinct and absent from the segment.
pub open spec fn apply_count_ok(seg: Seq<char>, spec: Seq<char>, count: u32) -> bool {
    &&& bank_spec_ok(spec)
    &&& count <= bank_max(spec.len() as int)
    &&& stroke_ok(seg)
    &&& chosen_keys(spec, count).no_duplicates()
    &&& disjoint(chosen_mid(spec, count), parsed_mid(seg))
    &&& disjoint(chosen_right(spec, count), parsed_right(seg))
}

/// Chosen key `j` of `ck` cannot be added to `seg`: its bank already holds
/// it, from the segment or from an earlier chosen key.
pub open spec fn count_clash(ck: Seq<char>, seg: Seq<char>, j: int) -> bool {
    (if spec_is_mid(ck[j]) {
        parsed_mid(seg).contains(ck[j])
    } else {
        parsed_right(seg).contains(ck[j])
    }) || ck.take(j).contains(ck[j])
}

/// The first chosen key that cannot be added.
pub open spec fn first_clash(ck: Seq<char>, seg: Seq<char>) -> int {
    choose|j: int| 0 <= j < ck.len() && count_clash(ck, seg, j) && forall|i: int| 0 <= i < j ==> !#[trigger] count_clash(ck, seg, i)
}

/// Why merging `count` into `seg` fails: the bank's error, else the count's
/// range, else the segment's parse error, else the first clashing key.
pub open spec fn apply_count_error(seg: Seq<char>, spec: Seq<char>, count: u32) -> Seq<char> {
    if !bank_spec_ok(spec) {
        bank_error(spec)
    } else if count > bank_max(spec.len() as int) {
        "count "@ + decimal(count as nat) + " out of range for bank \""@ + spec + "\" (0.."@ + decimal(
            bank_max(spec.len() as int) as nat,
        ) + ")"@
    } else if !stroke_ok(seg) {
        stroke_error(seg)
    } else {
        let ck = chosen_keys(spec, count);
        "count key \""@ + seq![ck[first_clash(ck, seg)]] + "\" already present in \""@ + seg + "\""@
    }
}

/// Merge the keys encoding `count` (per `spec`) into one sub-stroke segment.
///
/// Fails when the count exceeds the bank's maximum or any count key is
/// already present in the segment.
#[verifier::loop_isolation(false)]
pub fn apply_count(segment: &str, spec: &str, count: u32) -> (r: Result<String, StrokeError>)
    ensures
        r is Ok <==> apply_count_ok(segment@, spec@, count),
        r matches Ok(s) ==> s@ == render_keys(
            has_num(segment@),
            parsed_left(segment@),
            parsed_mid(segment@).union(chosen_mid(spec@, count)),
            parsed_right(segment@).union(chosen_right(spec@, count)),
        ),
        r matches Err(e) ==> e.spec_message() == apply_count_error(segment@, spec@, count),
{
    let bank = match count_bank(spec) {
        Ok(b) => b,
        Err(e) => return Err(e),
    };
    if count > bank.max {
        let mut m = String::new();
        push_str(&mut m, "count ");
        crate::text::push_decimal(&mut m, count as u64);
        push_str(&mut m, " out of range for bank \"");
        push_str(&mut m, spec);
        push_str(&mut m, "\" (0..");
        crate::text::push_decimal(&mut m, bank.max as u64);
        push_str(&mut m, ")");
        proof {
            assert(m@ =~= apply_count_error(segment@, spec@, count));
        }
        return Err(StrokeError::new(m));
    }
    let mut keys = match parse_stroke(segment) {
        Ok(k) => k,
        Err(e) => return Err(e),
    };
    let ghost s = spec@;
    let ghost m0 = keys.mid@;
    let ghost r0 = keys.right@;
    let mut i: usize = 0;
    while i < bank.bits.len()
        invariant
            i <= bank.bits@.len(),
            bank.bits@.len() == s.len(),
            keys.wf(),
            keys.num == has_num(segment@),
            set_of(keys.left@) == parsed_left(segment@),
            forall|c: char| #[trigger] keys.mid@.contains(c) <==> (m0.contains(c) || (chosen_keys(s.take(i as int), count).contains(c) && spec_is_mid(c))),
            forall|c: char| #[trigger] keys.right@.contains(c) <==> (r0.contains(c) || (chosen_keys(s.take(i as int), count).contains(c) && !spec_is_mid(c))),
            chosen_keys(s.take(i as int), count).no_duplicates(),
            forall|c: char| #[trigger] chosen_keys(s.take(i as int), count).contains(c) ==> (if spec_is_mid(c) { !m0.contains(c) } else { !r0.contains(c) }),
        decreases bank.bits.len() - i,
    {
        let bit = bank.bits[i];
        let ghost prev = chosen_keys(s.take(i as int), count);
        proof {
            assert(s.take(i + 1).drop_last() == s.take(i as int));
            assert(s.take(i + 1).last() == s[i as int]);
        }
        proof {
            lemma_push_contains(prev, bit.key);
        }
        if count & bit.weight == 0 {
            assert(chosen_keys(s.take(i + 1), count) == prev);
        } else {
            assert(chosen_keys(s.take(i + 1), count) == prev.push(bit.key));
            let present = match bit.side {
                Side::Mid => keys.mid.contains(bit.key),
                Side::Right => keys.right.contains(bit.key),
            };
            if present {
                proof {
                    let k = bit.key;
                    let full = chosen_keys(s, count);
                    lemma_chosen_prefix(s, count, (i + 1) as int);
                    if prev.contains(k) {
                        let w = choose|w: int| 0 <= w < prev.len() && prev[w] == k;
                        let pp = prev.push(k);
                        assert(pp[w] == pp[prev.len() as int]);
                        assert(full.subrange(0, pp.len() as int) == pp);
                        assert(full[w] == full[prev.len() as int]);
                        assert(!full.no_duplicates());
                    } else {
                        assert(full.subrange(0, (prev.len() + 1) as int)[prev.len() as int] == k);
                        assert(full.contains(k));
                        if spec_is_mid(k) {
                            assert(m0.contains(k));
                            assert(set_of(m0).contains(k));
                            assert(chosen_mid(s, count).contains(k));
                        } else {
                            assert(r0.contains(k));
                            assert(set_of(r0).contains(k));
                            assert(chosen_right(s, count).contains(k));
                        }
                    }
                }
                proof {
                    lemma_first_clash(s, segment@, count, i as int, m0, r0);
                }
                let mut m = concat3("count key \"", char_string(bit.key).as_str(), "\" already present in \"");
                push_str(&mut m, segment);
                push_str(&mut m, "\"");
                return Err(StrokeError::new(m));
            }
            match bit.side {
                Side::Mid => keys.mid.insert(bit.key),
                Side::Right => keys.right.insert(bit.key),
            }
            proof {
                let k = bit.key;
                assert forall|w: int, v: int| 0 <= w < v < prev.len() + 1 implies prev.push(k)[w] != prev.push(k)[v] by {
                    if v == prev.len() {
                        assert(prev.contains(prev[w]));
                    }
                }
            }
        }
        i = i + 1;
    }
    proof {
        assert(s.take(s.len() as int) == s);
        assert(set_of(keys.mid@) =~= parsed_mid(segment@).union(chosen_mid(s, count)));
        assert(set_of(keys.right@) =~= parsed_right(segment@).union(chosen_right(s, count)));
        let full = chosen_keys(s, count);
        assert forall|c: char| !(#[trigger] chosen_mid(s, count).contains(c) && parsed_mid(segment@).contains(c)) by {
            if chosen_mid(s, count).contains(c) {
                assert(set_of(m0).contains(c) == m0.contains(c));
            }
        }
        assert forall|c: char| !(#[trigger] chosen_right(s, count).contains(c) && parsed_right(segment@).contains(c)) by {
            if chosen_right(s, count).contains(c) {
                assert(set_of(r0).contains(c) == r0.contains(c));
            }
        }
    }
    Ok(render_stroke(&keys))
}

/// The key chosen at bank position `i` is the first that cannot be added
/// when it clashes and every chosen key before it could be added.
proof fn lemma_first_clash(s: Seq<char>, seg: Seq<char>, count: u32, i: int, m0: Seq<char>, r0: Seq<char>)
    requires
        0 <= i < s.len(),
        count & bit_weight(i) != 0,
        set_of(m0) == parsed_mid(seg),
        set_of(r0) == parsed_right(seg),
        chosen_keys(s.take(i), count).no_duplicates(),
        forall|c: char| #[trigger] chosen_keys(s.take(i), count).contains(c) ==> (if spec_is_mid(c) {
            !m0.contains(c)
        } else {
            !r0.contains(c)
        }),
        (if spec_is_mid(s[i]) {
            m0.contains(s[i])
        } else {
            r0.contains(s[i])
        }) || chosen_keys(s.take(i), count).contains(s[i]),
    ensures
        0 <= first_clash(chosen_keys(s, count), seg) < chosen_keys(s, count).len(),
        chosen_keys(s, count)[first_clash(chosen_keys(s, count), seg)] == s[i],
{
    let prev = chosen_keys(s.take(i), count);
    let full = chosen_keys(s, count);
    let j = prev.len() as int;
    assert(s.take(i + 1).drop_last() == s.take(i));
    assert(s.take(i + 1).last() == s[i]);
    assert(chosen_keys(s.take(i + 1), count) == prev.push(s[i]));
    lemma_chosen_prefix(s, count, i + 1);
    assert(full.subrange(0, j + 1) == prev.push(s[i]));
    assert(full[j] == s[i]) by {
        assert(full.subrange(0, j + 1)[j] == full[j]);
    }
    assert(full.take(j) == prev) by {
        assert(full.take(j) =~= full.subrange(0, j + 1).take(j));
    }
    assert(count_clash(full, seg, j)) by {
        if spec_is_mid(s[i]) && m0.contains(s[i]) {
            assert(set_of(m0).contains(s[i]));
        } else if !spec_is_mid(s[i]) && r0.contains(s[i]) {
            assert(set_of(r0).contains(s[i]));
        }
    }
    assert forall|x: int| 0 <= x < j implies !#[trigger] count_clash(full, seg, x) by {
        assert(full[x] == prev[x]) by {
            assert(full.subrange(0, j + 1)[x] == full[x]);
        }
        assert(prev.contains(prev[x]));
        if spec_is_mid(prev[x]) {
            assert(!set_of(m0).contains(prev[x]));
        } else {
            assert(!set_of(r0).contains(prev[x]));
        }
        if full.take(x).contains(full[x]) {
            let w = choose|w: int| 0 <= w < x && full.take(x)[w] == full[x];
            assert(full.take(x)[w] == full[w]);
            assert(full[w] == prev[w]) by {
                assert(full.subrange(0, j + 1)[w] == full[w]);
            }
        }
    }
    let f = first_clash(full, seg);
    assert(0 <= f < full.len() && count_clash(full, seg, f) && forall|y: int| 0 <= y < f ==> !#[trigger] count_clash(full, seg, y));
    if f < j {
        assert(!count_clash(full, seg, f));
    } else if f > j {
        assert(!count_clash(full, seg, j));
    }
}

/// A bank key is chosen for `count` exactly when one of its listed
/// positions has its bit set in `count`.
pub proof fn law_chosen_keys(s: Seq<char>, count: u32, c: char)
    ensures
        chosen_keys(s, count).contains(c) <==> exists|i: int|
            0 <= i < s.len() && #[trigger] s[i] == c && count & bit_weight(i) != 0,
    decreases s.len(),
{
    if s.len() > 0 {
        let q = s.drop_last();
        law_chosen_keys(q, count, c);
        let prev = chosen_keys(q, count);
        let last = s.len() - 1;
        if exists|i: int| 0 <= i < q.len() && #[trigger] q[i] == c && count & bit_weight(i) != 0 {
            let i = choose|i: int| 0 <= i < q.len() && #[trigger] q[i] == c && count & bit_weight(i) != 0;
            assert(s[i] == c);
            let k = choose|k: int| 0 <= k < prev.len() && prev[k] == c;
            if count & bit_weight(last) != 0 {
                assert(prev.push(s.last())[k] == c);
            }
        }
        if exists|i: int| 0 <= i < s.len() && #[trigger] s[i] == c && count & bit_weight(i) != 0 {
            let i = choose|i: int| 0 <= i < s.len() && #[trigger] s[i] == c && count & bit_weight(i) != 0;
            if i < last {
                assert(q[i] == c);
            } else {
                assert(prev.push(s.last())[prev.len() as int] == c);
            }
        }
        if chosen_keys(s, count).contains(c) {
            let k = choose|k: int| 0 <= k < chosen_keys(s, count).len() && chosen_keys(s, count)[k] == c;
            if count & bit_weight(last) != 0 && k == prev.len() {
                assert(s[last] == c);
            } else {
                assert(prev[k] == c);
                let i = choose|i: int| 0 <= i < q.len() && #[trigger] q[i] == c && count & bit_weight(i) != 0;
                assert(s[i] == c);
            }
        }
    }
}

/// The chosen keys of a prefix are a prefix of the chosen keys.
pub proof fn lemma_chosen_prefix(s: Seq<char>, count: u32, n: int)
    requires
        0 <= n <= s.len(),
    ensures
        chosen_keys(s.take(n), count).len() <= chosen_keys(s, count).len(),
        chosen_keys(s, count).subrange(0, chosen_keys(s.take(n), count).len() as int) == chosen_keys(s.take(n), count),
    decreases s.len() - n,
{
    if n < s.len() {
        lemma_chosen_prefix(s, count, n + 1);
        assert(s.take(n + 1).drop_last() == s.take(n));
        let a = chosen_keys(s.take(n), count);
        let b = chosen_keys(s.take(n + 1), count);
        let f = chosen_keys(s, count);
        assert(b.subrange(0, a.len() as int) == a);
        assert(f.subrange(0, a.len() as int) == f.subrange(0, b.len() as int).subrange(0, a.len() as int));
    } else {
        assert(s.take(n) == s);
    }
}

/// Remove the keys of `shape` from the sub-stroke `m`: the inverse of
/// [`merge_strokes`]. `Ok(None)` when `shape` is not contained in `m`.
///
/// Fails when either side fails to parse.
pub fn subtract_strokes(m: &str, shape: &str) -> (r: Result<Option<String>, StrokeError>)
    ensures
        r is Ok <==> stroke_ok(m@) && stroke_ok(shape@),
        r matches Ok(o) ==> (o is Some <==> (parsed_left(shape@).subset_of(parsed_left(m@))
            && parsed_mid(shape@).subset_of(parsed_mid(m@)) && parsed_right(shape@).subset_of(parsed_right(m@))
            && (has_num(shape@) ==> has_num(m@)))),
        r matches Ok(Some(s)) ==> s@ == render_keys(
            has_num(m@) && !has_num(shape@),
            parsed_left(m@).difference(parsed_left(shape@)),
            parsed_mid(m@).difference(parsed_mid(shape@)),
            parsed_right(m@).difference(parsed_right(shape@)),
        ),
        r matches Err(e) ==> e.spec_message() == (if !stroke_ok(m@) {
            stroke_error(m@)
        } else {
            stroke_error(shape@)
        }),
{
    let km = match parse_stroke(m) {
        Ok(k) => k,
        Err(e) => return Err(e),
    };
    let ks = match parse_stroke(shape) {
        Ok(k) => k,
        Err(e) => return Err(e),
    };
    if ks.num && !km.num {
        return Ok(None);
    }
    let left = match remove_bank(&km.left, &ks.left) {
        Some(k) => k,
        None => return Ok(None),
    };
    let mid = match remove_bank(&km.mid, &ks.mid) {
        Some(k) => k,
        None => return Ok(None),
    };
    let right = match remove_bank(&km.right, &ks.right) {
        Some(k) => k,
        None => return Ok(None),
    };
    let out = StrokeKeys { num: km.num && !ks.num, left, mid, right };
    Ok(Some(render_stroke(&out)))
}

/// `dst` minus the keys of `src`, or `None` when some key of `src` is
/// missing from `dst`.
fn remove_bank(dst: &KeySet, src: &KeySet) -> (r: Option<KeySet>)
    requires
        dst.wf(),
    ensures
        r is Some <==> set_of(src@).subset_of(set_of(dst@)),
        r matches Some(k) ==> k.wf() && set_of(k@) == set_of(dst@).difference(set_of(src@)),
{
    let sk = src.keys();
    let mut i: usize = 0;
    while i < sk.len()
        invariant
            sk@ == src@,
            i <= sk@.len(),
            forall|j: int| 0 <= j < i ==> dst@.contains(#[trigger] sk@[j]),
        decreases sk.len() - i,
    {
        if !dst.contains(sk[i]) {
            proof {
                assert(set_of(src@).contains(sk@[i as int]));
            }
            return None;
        }
        i = i + 1;
    }
    let dk = dst.keys();
    let mut out = KeySet::empty();
    let mut j: usize = 0;
    while j < dk.len()
        invariant
            dk@ == dst@,
            dst@.no_duplicates(),
            j <= dk@.len(),
            out.wf(),
            forall|c: char| #[trigger] out@.contains(c) <==> (dk@.take(j as int).contains(c) && !src@.contains(c)),
        decreases dk.len() - j,
    {
        let c = dk[j];
        if !src.contains(c) {
            out.insert(c);
        }
        j = j + 1;
        proof {
            assert(dk@.take(j as int) == dk@.take(j - 1).push(c));
            lemma_push_contains(dk@.take(j - 1), c);
        }
    }
    proof {
        assert(dk@.take(dk@.len() as int) == dk@);
        assert forall|c: char| set_of(src@).contains(c) implies set_of(dst@).contains(c) by {
            let w = choose|w: int| 0 <= w < src@.len() && src@[w] == c;
            assert(dst@.contains(sk@[w]));
        }
        assert(set_of(out@) =~= set_of(dst@).difference(set_of(src@)));
    }
    Some(out)
}

/// Merging two strokes does not depend on their order.
pub proof fn law_merge_commutative(a: Seq<char>, b: Seq<char>)
    ensures
        merge_spec(a, b) == merge_spec(b, a),
{
    assert(disjoint(parsed_left(a), parsed_left(b)) == disjoint(parsed_left(b), parsed_left(a)));
    assert(disjoint(parsed_mid(a), parsed_mid(b)) == disjoint(parsed_mid(b), parsed_mid(a)));
    assert(disjoint(parsed_right(a), parsed_right(b)) == disjoint(parsed_right(b), parsed_right(a)));
    assert(parsed_left(a).union(parsed_left(b)) =~= parsed_left(b).union(parsed_left(a)));
    assert(parsed_mid(a).union(parsed_mid(b)) =~= parsed_mid(b).union(parsed_mid(a)));
    assert(parsed_right(a).union(parsed_right(b)) =~= parsed_right(b).union(parsed_right(a)));
}

/// Subtracting a stroke from its merge with another gives the other back
/// (in canonical form), when the number bar is not on both sides.
pub proof fn law_subtract_undoes_merge(a: Seq<char>, b: Seq<char>)
    requires
        merge_spec(a, b) is Some,
        !(has_num(a) && has_num(b)),
    ensures
        ({
            let m = merge_spec(a, b)->0;
            &&& stroke_ok(m)
            &&& parsed_left(b).subset_of(parsed_left(m))
            &&& parsed_mid(b).subset_of(parsed_mid(m))
            &&& parsed_right(b).subset_of(parsed_right(m))
            &&& has_num(b) ==> has_num(m)
            &&& render_keys(
                has_num(m) && !has_num(b),
                parsed_left(m).difference(parsed_left(b)),
                parsed_mid(m).difference(parsed_mid(b)),
                parsed_right(m).difference(parsed_right(b)),
            ) == render_keys(has_num(a), parsed_left(a), parsed_mid(a), parsed_right(a))
        }),
{
    law_parsed_banks(a);
    law_parsed_banks(b);
    let l = parsed_left(a).union(parsed_left(b));
    let md = parsed_mid(a).union(parsed_mid(b));
    let r = parsed_right(a).union(parsed_right(b));
    law_parse_render(has_num(a) || has_num(b), l, md, r);
    let m = merge_spec(a, b)->0;
    assert(parsed_left(m).difference(parsed_left(b)) =~= parsed_left(a));
    assert(parsed_mid(m).difference(parsed_mid(b)) =~= parsed_mid(a));
    assert(parsed_right(m).difference(parsed_right(b)) =~= parsed_right(a));
}

/// The low `n` bits of a `u32` (all of them from 32 on).
pub open spec fn low_mask(n: u32) -> u32 {
    if n >= 32 {
        0xffff_ffffu32
    } else {
        ((1u32 << n) - 1) as u32
    }
}

/// Only keys of the bank are chosen.
proof fn lemma_chosen_in_bank(s: Seq<char>, count: u32, c: char)
    requires
        chosen_keys(s, count).contains(c),
    ensures
        s.contains(c),
    decreases s.len(),
{
    let prev = chosen_keys(s.drop_last(), count);
    if prev.contains(c) {
        lemma_chosen_in_bank(s.drop_last(), count, c);
        let j = choose|j: int| 0 <= j < s.drop_last().len() && s.drop_last()[j] == c;
        assert(s[j] == c);
    } else {
        assert(c == s.last());
        assert(s[s.len() - 1] == c);
    }
}

/// With distinct bank keys, the chosen set pins down the low bits of the
/// count, one key per bit.
proof fn lemma_chosen_bits(s: Seq<char>, c1: u32, c2: u32)
    requires
        s.no_duplicates(),
        s.len() <= 32,
        set_of(chosen_keys(s, c1)) == set_of(chosen_keys(s, c2)),
    ensures
        c1 & low_mask(s.len() as u32) == c2 & low_mask(s.len() as u32),
    decreases s.len(),
{
    let n = s.len() as u32;
    if n == 0 {
        assert(c1 & low_mask(0) == 0 && c2 & low_mask(0) == 0) by (bit_vector);
    } else {
        let t = s.drop_last();
        let k = s.last();
        assert(!t.contains(k)) by {
            if t.contains(k) {
                let j = choose|j: int| 0 <= j < t.len() && t[j] == k;
                assert(s[j] == s[s.len() - 1]);
            }
        }
        assert(t.no_duplicates()) by {
            assert forall|i: int, j: int| 0 <= i < t.len() && 0 <= j < t.len() && i != j implies t[i] != t[j] by {
                assert(s[i] == t[i] && s[j] == t[j]);
            }
        }
        let p1 = chosen_keys(t, c1);
        let p2 = chosen_keys(t, c2);
        if p1.contains(k) {
            lemma_chosen_in_bank(t, c1, k);
        }
        if p2.contains(k) {
            lemma_chosen_in_bank(t, c2, k);
        }
        let w = 1u32 << ((n - 1) as u32);
        assert((c1 & w != 0) == (c2 & w != 0)) by {
            if (c1 & w != 0) != (c2 & w != 0) {
                if c1 & w != 0 {
                    assert(chosen_keys(s, c1) == p1.push(k));
                    assert(chosen_keys(s, c1).contains(k) == set_of(chosen_keys(s, c1)).contains(k));
                    assert(chosen_keys(s, c1)[p1.len() as int] == k);
                    assert(chosen_keys(s, c2) == p2);
                    assert(!set_of(chosen_keys(s, c2)).contains(k));
                } else {
                    assert(chosen_keys(s, c2) == p2.push(k));
                    assert(chosen_keys(s, c2)[p2.len() as int] == k);
                    assert(chosen_keys(s, c1) == p1);
                    assert(!set_of(chosen_keys(s, c1)).contains(k));
                }
            }
        }
        assert(!p1.contains(k) && !p2.contains(k));
        assert(chosen_keys(s, c1) == if c1 & w != 0 { p1.push(k) } else { p1 });
        assert(chosen_keys(s, c2) == if c2 & w != 0 { p2.push(k) } else { p2 });
        lemma_push_contains(p1, k);
        lemma_push_contains(p2, k);
        assert(set_of(p1) == set_of(p2)) by {
            assert forall|c: char| set_of(p1).contains(c) == set_of(p2).contains(c) by {
                if c == k {
                    assert(!set_of(p1).contains(c) && !set_of(p2).contains(c));
                } else {
                    assert(chosen_keys(s, c1).contains(c) == p1.contains(c));
                    assert(chosen_keys(s, c2).contains(c) == p2.contains(c));
                    assert(set_of(chosen_keys(s, c1)).contains(c) == chosen_keys(s, c1).contains(c));
                    assert(set_of(chosen_keys(s, c2)).contains(c) == chosen_keys(s, c2).contains(c));
                    assert(set_of(chosen_keys(s, c1)).contains(c) == set_of(chosen_keys(s, c2)).contains(c));
                    assert(set_of(p1).contains(c) == p1.contains(c));
                    assert(set_of(p2).contains(c) == p2.contains(c));
                }
            }
            assert(set_of(p1) =~= set_of(p2));
        }
        lemma_chosen_bits(t, c1, c2);
        let m = (n - 1) as u32;
        assert(t.len() as u32 == m);
        assert(c1 & low_mask(n) == c2 & low_mask(n)) by (bit_vector)
            requires
                1 <= n <= 32,
                m == n - 1,
                w == 1u32 << m,
                c1 & low_mask(m) == c2 & low_mask(m),
                (c1 & w != 0) == (c2 & w != 0),
        ;
    }
}

/// Distinct counts within a bank's range merge into the same segment as
/// distinct strokes, provided the bank lists each key once: a count is
/// recovered from the keys it adds.
pub proof fn law_count_encoding_injective(segment: Seq<char>, spec: Seq<char>, c1: u32, c2: u32)
    requires
        spec.no_duplicates(),
        apply_count_ok(segment, spec, c1),
        apply_count_ok(segment, spec, c2),
        c1 != c2,
    ensures
        render_keys(
            has_num(segment),
            parsed_left(segment),
            parsed_mid(segment).union(chosen_mid(spec, c1)),
            parsed_right(segment).union(chosen_right(spec, c1)),
        ) != render_keys(
            has_num(segment),
            parsed_left(segment),
            parsed_mid(segment).union(chosen_mid(spec, c2)),
            parsed_right(segment).union(chosen_right(spec, c2)),
        ),
{
    law_parsed_banks(segment);
    let m1 = parsed_mid(segment).union(chosen_mid(spec, c1));
    let m2 = parsed_mid(segment).union(chosen_mid(spec, c2));
    let r1 = parsed_right(segment).union(chosen_right(spec, c1));
    let r2 = parsed_right(segment).union(chosen_right(spec, c2));
    assert forall|c: char| chosen_right(spec, c1).contains(c) implies spec_is_right(c) by {
        lemma_chosen_in_bank(spec, c1, c);
        let j = choose|j: int| 0 <= j < spec.len() && spec[j] == c;
    }
    assert forall|c: char| chosen_right(spec, c2).contains(c) implies spec_is_right(c) by {
        lemma_chosen_in_bank(spec, c2, c);
        let j = choose|j: int| 0 <= j < spec.len() && spec[j] == c;
    }
    law_parse_render(has_num(segment), parsed_left(segment), m1, r1);
    law_parse_render(has_num(segment), parsed_left(segment), m2, r2);
    if render_keys(has_num(segment), parsed_left(segment), m1, r1) == render_keys(has_num(segment), parsed_left(segment), m2, r2) {
        assert(m1 == m2 && r1 == r2);
        assert(set_of(chosen_keys(spec, c1)) =~= set_of(chosen_keys(spec, c2))) by {
            assert forall|c: char| set_of(chosen_keys(spec, c1)).contains(c) implies set_of(chosen_keys(spec, c2)).contains(c) by {
                if spec_is_mid(c) {
                    assert(chosen_mid(spec, c1).contains(c));
                    assert(m2.contains(c));
                    assert(!parsed_mid(segment).contains(c));
                } else {
                    assert(chosen_right(spec, c1).contains(c));
                    assert(r2.contains(c));
                    assert(!parsed_right(segment).contains(c));
                }
            }
            assert forall|c: char| set_of(chosen_keys(spec, c2)).contains(c) implies set_of(chosen_keys(spec, c1)).contains(c) by {
                if spec_is_mid(c) {
                    assert(chosen_mid(spec, c2).contains(c));
                    assert(m1.contains(c));
                    assert(!parsed_mid(segment).contains(c));
                } else {
                    assert(chosen_right(spec, c2).contains(c));
                    assert(r1.contains(c));
                    assert(!parsed_right(segment).contains(c));
                }
            }
        }
        lemma_chosen_bits(spec, c1, c2);
        let n = spec.len() as u32;
        assert(low_mask(n) == bank_max(spec.len() as int));
        assert(c1 & low_mask(n) == c1 && c2 & low_mask(n) == c2) by (bit_vector)
            requires
                c1 <= low_mask(n),
                c2 <= low_mask(n),
        ;
    }
}

} // verus!
