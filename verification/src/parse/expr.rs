//! Linear-in-`d` expression parsing for `%(EXPR)` computed landings.
use vstd::prelude::*;
use super::Expr;
use crate::text::{all_digits, chars_of, digits_value, digits_value_upto, is_digit, is_whitespace, is_ws};

verus! {

broadcast use vstd::seq_lib::group_seq_properties;

/// `s` with every whitespace character removed.
pub open spec fn strip_ws(s: Seq<char>) -> Seq<char> {
    s.filter(|c: char| !is_ws(c))
}

/// An optional `-` followed by at least one digit.
pub open spec fn signed_digits(s: Seq<char>) -> bool {
    let body = if s.len() > 0 && s[0] == '-' {
        s.drop_first()
    } else {
        s
    };
    body.len() > 0 && all_digits(body)
}

/// The value of a signed digit string.
pub open spec fn signed_value(s: Seq<char>) -> int {
    if s.len() > 0 && s[0] == '-' {
        -(digits_value(s.drop_first()) as int)
    } else {
        digits_value(s) as int
    }
}

/// A signed digit string whose value fits in `i32`, as that value.
pub open spec fn spec_parse_i32(s: Seq<char>) -> Option<i32> {
    if signed_digits(s) && i32::MIN <= signed_value(s) <= i32::MAX {
        Some(signed_value(s) as i32)
    } else {
        None
    }
}

/// The `±M` offset tail: empty means 0; otherwise an explicit sign followed
/// by digits whose magnitude fits in `i32`.
pub open spec fn spec_parse_offset(s: Seq<char>) -> Option<i32> {
    if s.len() == 0 {
        Some(0)
    } else if (s[0] == '+' || s[0] == '-') && s.len() > 1 && all_digits(s.drop_first()) && digits_value(
        s.drop_first(),
    ) <= i32::MAX {
        Some(
            if s[0] == '-' {
                -(digits_value(s.drop_first()) as int)
            } else {
                digits_value(s.drop_first()) as int
            } as i32,
        )
    } else {
        None
    }
}

/// Index of the first `d` (or the length).
pub open spec fn d_index(s: Seq<char>) -> int {
    crate::stroke::keys::first_where(s, |c: char| c == 'd')
}

/// The expression an `%(EXPR)` body denotes: `[-]N d [±M]`, bare `d`, `-d`,
/// or a bare integer, whitespace ignored.
pub open spec fn spec_parse_expr(raw: Seq<char>) -> Option<Expr> {
    let s = strip_ws(raw);
    let d = d_index(s);
    if d < s.len() {
        let a_part = s.take(d);
        let b_part = s.skip(d + 1);
        let a: Option<i32> = if a_part.len() == 0 {
            Some(1i32)
        } else if a_part == seq!['-'] {
            Some(-1i32)
        } else {
            spec_parse_i32(a_part)
        };
        match (a, spec_parse_offset(b_part)) {
            (Some(a), Some(b)) => Some(Expr { a, b }),
            _ => None,
        }
    } else {
        match spec_parse_i32(s) {
            Some(b) => Some(Expr { a: 0, b }),
            None => None,
        }
    }
}

/// True when `v[lo..hi]` is an optional `-` followed by at least one digit.
#[verifier::loop_isolation(false)]
fn is_signed_digits(v: &[char], lo: usize, hi: usize) -> (r: bool)
    requires
        lo <= hi <= v@.len(),
    ensures
        r == signed_digits(v@.subrange(lo as int, hi as int)),
{
    let ghost s = v@.subrange(lo as int, hi as int);
    let start = if lo < hi && v[lo] == '-' {
        lo + 1
    } else {
        lo
    };
    assert(s.len() > 0 && s[0] == '-' ==> s.drop_first() == v@.subrange(start as int, hi as int));
    if start >= hi {
        return false;
    }
    let mut i = start;
    while i < hi
        invariant
            start <= i <= hi <= v@.len(),
            forall|j: int| start <= j < i ==> is_digit(#[trigger] v@[j]),
        decreases hi - i,
    {
        if !('0' <= v[i] && v[i] <= '9') {
            proof {
                let body = v@.subrange(start as int, hi as int);
                assert(body[i - start] == v@[i as int]);
                assert(!is_digit(body[i - start]));
                assert(!all_digits(body));
            }
            return false;
        }
        i = i + 1;
    }
    proof {
        let body = v@.subrange(start as int, hi as int);
        assert forall|j: int| 0 <= j < body.len() implies is_digit(#[trigger] body[j]) by {
            assert(body[j] == v@[j + start]);
        }
    }
    true
}

/// Parse `v[lo..hi]` as a signed decimal `i32`.
fn parse_i32(v: &[char], lo: usize, hi: usize) -> (r: Option<i32>)
    requires
        lo <= hi <= v@.len(),
    ensures
        r == spec_parse_i32(v@.subrange(lo as int, hi as int)),
{
    let ghost s = v@.subrange(lo as int, hi as int);
    if !is_signed_digits(v, lo, hi) {
        return None;
    }
    if v[lo] == '-' {
        assert(s.drop_first() == v@.subrange(lo + 1, hi as int));
        match digits_value_upto(v, lo + 1, hi, 2147483648) {
            Some(m) => Some((0 - m as i64) as i32),
            None => None,
        }
    } else {
        match digits_value_upto(v, lo, hi, 2147483647) {
            Some(m) => Some(m as i32),
            None => None,
        }
    }
}

/// Parse the `±M` offset tail `v[lo..hi]` of a linear expression.
fn parse_offset(v: &[char], lo: usize, hi: usize) -> (r: Option<i32>)
    requires
        lo <= hi <= v@.len(),
    ensures
        r == spec_parse_offset(v@.subrange(lo as int, hi as int)),
{
    let ghost s = v@.subrange(lo as int, hi as int);
    if lo == hi {
        return Some(0);
    }
    let sign = v[lo];
    if !(sign == '+' || sign == '-') {
        return None;
    }
    assert(s.drop_first() == v@.subrange(lo + 1, hi as int));
    if lo + 1 == hi || !is_signed_digits(v, lo + 1, hi) || v[lo + 1] == '-' {
        proof {
            if lo + 1 < hi && v@[lo + 1] == '-' {
                assert(!is_digit(s.drop_first()[0]));
            }
        }
        return None;
    }
    match digits_value_upto(v, lo + 1, hi, 2147483647) {
        Some(m) => {
            if sign == '-' {
                Some((0 - m as i64) as i32)
            } else {
                Some(m as i32)
            }
        },
        None => None,
    }
}

/// Parse an expression linear in `d`: `[-]N d [±M]`, bare `d`, or a bare
/// integer. Whitespace is ignored. Returns None when malformed.
pub fn parse_expr(raw: &str) -> (r: Option<Expr>)
    ensures
        r == spec_parse_expr(raw@),
{
    let cs = chars_of(raw);
    let mut s: Vec<char> = Vec::new();
    let mut i: usize = 0;
    while i < cs.len()
        invariant
            i <= cs@.len(),
            s@ == strip_ws(cs@.take(i as int)),
        decreases cs.len() - i,
    {
        let c = cs[i];
        proof {
            reveal_with_fuel(Seq::<_>::filter, 1);
            assert(cs@.take(i + 1).drop_last() == cs@.take(i as int));
        }
        if !is_whitespace(c) {
            s.push(c);
        }
        i = i + 1;
    }
    assert(cs@.take(cs@.len() as int) == cs@);
    assert(s@ == strip_ws(raw@));
    let mut d: usize = 0;
    while d < s.len() && s[d] != 'd'
        invariant
            d <= s@.len(),
            forall|j: int| 0 <= j < d ==> s@[j] != 'd',
        decreases s.len() - d,
    {
        d = d + 1;
    }
    proof {
        crate::stroke::keys::lemma_first_where_unique(s@, |c: char| c == 'd', d as int);
    }
    let n = s.len();
    if d < n {
        assert(s@.take(d as int) == s@.subrange(0, d as int));
        assert(s@.skip(d + 1) == s@.subrange(d + 1, n as int));
        let a = if d == 0 {
            Some(1i32)
        } else if d == 1 && s[0] == '-' {
            assert(s@.take(1) == seq!['-']);
            Some(-1i32)
        } else {
            proof {
                if d == 1 {
                    assert(s@.take(1) != seq!['-']) by {
                        assert(s@.take(1)[0] != '-');
                    }
                }
            }
            parse_i32(&s, 0, d)
        };
        let b = parse_offset(&s, d + 1, n);
        match (a, b) {
            (Some(a), Some(b)) => Some(Expr { a, b }),
            _ => None,
        }
    } else {
        assert(s@.subrange(0, n as int) == s@);
        match parse_i32(&s, 0, n) {
            Some(b) => Some(Expr { a: 0, b }),
            None => None,
        }
    }
}

} // verus!
