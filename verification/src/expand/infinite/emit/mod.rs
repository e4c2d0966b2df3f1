//! Render the two Pass-A tables into a self-contained C++ header for the
//! replay dictionary on the device, plus the sampled stroke sequences that
//! pin the device dictionary to the stroke walker. No enumerated rows are
//! emitted: the data header carries rules.
use vstd::prelude::*;
use crate::error::ExpandError;
use crate::stroke::keys::{
    has_num, left_order, left_order_vec, mid_order, mid_order_vec, parse_stroke, parsed_left, parsed_mid,
    parsed_right, right_order, right_order_vec, set_of, stroke_error, stroke_ok, KeySet,
};
use crate::text::{chars_of, copy_str, push_str};

pub mod data;
pub mod sample;

verus! {

broadcast use vstd::seq_lib::group_seq_properties;

/// `m` with the bit `base + i` set for each of the first `k` keys of `order`
/// present in `set`.
pub open spec fn bank_fold(m: u32, order: Seq<char>, set: Set<char>, base: u32, k: nat) -> u32
    decreases k,
{
    if k == 0 || k > order.len() {
        m
    } else {
        let p = bank_fold(m, order, set, base, (k - 1) as nat);
        if set.contains(order[k - 1]) {
            p | (1u32 << ((base + (k - 1)) as u32))
        } else {
            p
        }
    }
}

/// The device key mask of one sub-stroke: `#` is bit 0, the left bank bits
/// 1..=7, the middle bank 8..=12, the right bank 13..=22, each bank in
/// canonical key order; `None` when the stroke does not parse.
pub open spec fn stroke_mask_spec(s: Seq<char>) -> Option<u32> {
    if !stroke_ok(s) {
        None
    } else {
        let m0: u32 = if has_num(s) { 1 } else { 0 };
        let m1 = bank_fold(m0, left_order(), parsed_left(s), 1, 7);
        let m2 = bank_fold(m1, mid_order(), parsed_mid(s), 8, 5);
        Some(bank_fold(m2, right_order(), parsed_right(s), 13, 10))
    }
}

proof fn lemma_or_bit(p: u32, x: u32, t: u32)
    requires
        x < 32,
        t < 32,
    ensures
        ((p | (1u32 << x)) & (1u32 << t) != 0) <==> ((p & (1u32 << t)) != 0 || x == t),
{
    assert(((p | (1u32 << x)) & (1u32 << t) != 0) <==> ((p & (1u32 << t)) != 0 || x == t)) by (bit_vector)
        requires
            x < 32,
            t < 32,
    ;
}

proof fn lemma_start_bit(num: bool, t: u32)
    requires
        t < 32,
    ensures
        (((if num { 1u32 } else { 0u32 }) & (1u32 << t)) != 0) <==> (num && t == 0),
{
    assert(((1u32 & (1u32 << t)) != 0) <==> t == 0) by (bit_vector)
        requires
            t < 32,
    ;
    assert((0u32 & (1u32 << t)) == 0) by (bit_vector);
}

/// Bit `t` of a bank fold: set before, or `t` is the bit of a present key
/// among the first `k` of `order`.
proof fn lemma_bank_bit(m: u32, order: Seq<char>, set: Set<char>, base: u32, k: nat, t: u32)
    requires
        k <= order.len(),
        base + k <= 32,
        t < 32,
    ensures
        ((bank_fold(m, order, set, base, k) & (1u32 << t)) != 0) <==> ((m & (1u32 << t)) != 0 || (base <= t < base + k
            && set.contains(order[t - base]))),
    decreases k,
{
    if k > 0 {
        lemma_bank_bit(m, order, set, base, (k - 1) as nat, t);
        let x = (base + (k - 1)) as u32;
        let p = bank_fold(m, order, set, base, (k - 1) as nat);
        if set.contains(order[k - 1]) {
            lemma_or_bit(p, x, t);
        }
    }
}

/// The device key mask follows the fixed device layout: bit 0 is the number
/// bar; bits 1 to 7 are the left keys `S T K P W H R`; bits 8 to 12 the
/// middle keys `A O * E U`; bits 13 to 22 the right keys
/// `F R P B L G T S D Z`; each bit is set exactly when the stroke holds that
/// key, and no bit from 23 up is ever set.
pub proof fn law_stroke_mask_layout(s: Seq<char>, t: u32)
    requires
        stroke_ok(s),
        t < 32,
    ensures
        stroke_mask_spec(s) is Some,
        ((stroke_mask_spec(s)->0 & (1u32 << t)) != 0) <==> ((t == 0 && has_num(s)) || (1 <= t < 8
            && parsed_left(s).contains(seq!['S', 'T', 'K', 'P', 'W', 'H', 'R'][t - 1])) || (8 <= t < 13
            && parsed_mid(s).contains(seq!['A', 'O', '*', 'E', 'U'][t - 8])) || (13 <= t < 23 && parsed_right(
            s,
        ).contains(seq!['F', 'R', 'P', 'B', 'L', 'G', 'T', 'S', 'D', 'Z'][t - 13]))),
{
    let m0: u32 = if has_num(s) { 1 } else { 0 };
    let m1 = bank_fold(m0, left_order(), parsed_left(s), 1, 7);
    let m2 = bank_fold(m1, mid_order(), parsed_mid(s), 8, 5);
    lemma_start_bit(has_num(s), t);
    lemma_bank_bit(m0, left_order(), parsed_left(s), 1, 7, t);
    lemma_bank_bit(m1, mid_order(), parsed_mid(s), 8, 5, t);
    lemma_bank_bit(m2, right_order(), parsed_right(s), 13, 10, t);
}

/// Set the bits of one bank's present keys into `mask`.
fn bank_bits(order: &Vec<char>, set: &KeySet, base: u32, mask: &mut u32)
    requires
        base + order@.len() <= 32,
    ensures
        *final(mask) == bank_fold(*old(mask), order@, set_of(set@), base, order@.len()),
{
    let ghost m0 = *mask;
    let mut i: usize = 0;
    while i < order.len()
        invariant
            i <= order@.len(),
            base + order@.len() <= 32,
            *mask == bank_fold(m0, order@, set_of(set@), base, i as nat),
        decreases order.len() - i,
    {
        if set.contains(order[i]) {
            let sh = base + i as u32;
            *mask = *mask | (1u32 << sh);
        }
        i = i + 1;
    }
}

/// Encode one sub-stroke into the device's 32-bit key mask.
///
/// Fails when the stroke does not parse.
pub fn stroke_mask(stroke: &str) -> (r: Result<u32, ExpandError>)
    ensures
        match stroke_mask_spec(stroke@) {
            Some(m) => r == Ok::<u32, ExpandError>(m),
            None => r matches Err(e) && e.spec_message() == stroke_error(stroke@),
        },
{
    let keys = match parse_stroke(stroke) {
        Ok(k) => k,
        Err(e) => {
            return Err(ExpandError::from_stroke(e));
        },
    };
    let mut mask: u32 = if keys.num {
        1
    } else {
        0
    };
    let lo = left_order_vec();
    let mo = mid_order_vec();
    let ro = right_order_vec();
    bank_bits(&lo, &keys.left, 1, &mut mask);
    bank_bits(&mo, &keys.mid, 8, &mut mask);
    bank_bits(&ro, &keys.right, 13, &mut mask);
    Ok(mask)
}

/// One character escaped into the body of a C string literal.
pub open spec fn c_escape_char(ch: char) -> Seq<char> {
    if ch == '\\' {
        seq!['\\', '\\']
    } else if ch == '"' {
        seq!['\\', '"']
    } else if ch == '\n' {
        seq!['\\', 'n']
    } else if ch == '\t' {
        seq!['\\', 't']
    } else {
        seq![ch]
    }
}

/// A string escaped into the body of a C string literal (no quotes).
pub open spec fn c_escape_spec(s: Seq<char>) -> Seq<char>
    decreases s.len(),
{
    if s.len() == 0 {
        Seq::empty()
    } else {
        c_escape_spec(s.drop_last()) + c_escape_char(s.last())
    }
}

/// Escape a string into the body of a C string literal (no surrounding
/// quotes).
pub fn c_escape(text: &str) -> (r: String)
    ensures
        r@ == c_escape_spec(text@),
{
    let c = chars_of(text);
    let mut out = String::new();
    let mut i: usize = 0;
    assert(c@.take(0) == Seq::<char>::empty());
    while i < c.len()
        invariant
            i <= c@.len(),
            c@ == text@,
            out@ == c_escape_spec(c@.take(i as int)),
        decreases c.len() - i,
    {
        proof {
            assert(c@.take(i + 1).drop_last() == c@.take(i as int));
            assert(c@.take(i + 1).last() == c@[i as int]);
        }
        let ch = c[i];
        if ch == '\\' {
            out.push('\\');
            out.push('\\');
        } else if ch == '"' {
            out.push('\\');
            out.push('"');
        } else if ch == '\n' {
            out.push('\\');
            out.push('n');
        } else if ch == '\t' {
            out.push('\\');
            out.push('t');
        } else {
            out.push(ch);
        }
        i = i + 1;
    }
    assert(c@.take(i as int) == c@);
    out
}

} // verus!
