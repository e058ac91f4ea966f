//! Decimal integer parsing for descriptor tokens.
//!
//! A token is accepted exactly when it consists of an optional sign followed
//! by at least one ASCII digit and its value fits the target type: the same
//! inputs that Rust's standard decimal parsing accepts for `u32` and `i32`.

use vstd::prelude::*;

use crate::text::to_char_vec;

verus! {

/// An ASCII decimal digit, `'0'` through `'9'`.
pub open spec fn is_digit(c: char) -> bool {
    48 <= c as int <= 57
}

/// Numeric value of an ASCII digit.
pub open spec fn digit_val(c: char) -> int {
    c as int - 48
}

/// Every character of `t` is an ASCII digit.
pub open spec fn all_digits(t: Seq<char>) -> bool {
    forall|i: int| 0 <= i < t.len() ==> is_digit(#[trigger] t[i])
}

/// The value of a digit string read in base 10.
pub open spec fn digits_val(t: Seq<char>) -> int
    decreases t.len(),
{
    if t.len() == 0 {
        0
    } else {
        10 * digits_val(t.drop_last()) + digit_val(t.last())
    }
}

/// What parsing a token as a `u32` yields: an optional leading `'+'`,
/// then one or more digits, with a value of at most `u32::MAX`.
pub open spec fn spec_parse_u32(t: Seq<char>) -> Option<u32> {
    let body = if t.len() > 0 && t[0] == '+' {
        t.drop_first()
    } else {
        t
    };
    if body.len() > 0 && all_digits(body) && digits_val(body) <= u32::MAX as int {
        Some(digits_val(body) as u32)
    } else {
        None
    }
}

/// What the digit part of a signed token yields, given the sign.
pub open spec fn spec_parse_i32_body(body: Seq<char>, neg: bool) -> Option<i32> {
    if body.len() > 0 && all_digits(body) {
        if neg && -digits_val(body) >= i32::MIN as int {
            Some((-digits_val(body)) as i32)
        } else if !neg && digits_val(body) <= i32::MAX as int {
            Some(digits_val(body) as i32)
        } else {
            None
        }
    } else {
        None
    }
}

/// What parsing a token as an `i32` yields: an optional leading `'+'` or
/// `'-'`, then one or more digits, with a value in `i32`'s range.
pub open spec fn spec_parse_i32(t: Seq<char>) -> Option<i32> {
    if t.len() > 0 && t[0] == '-' {
        spec_parse_i32_body(t.drop_first(), true)
    } else if t.len() > 0 && t[0] == '+' {
        spec_parse_i32_body(t.drop_first(), false)
    } else {
        spec_parse_i32_body(t, false)
    }
}

/// A digit string never has a negative value.
pub proof fn lemma_digits_val_nonneg(t: Seq<char>)
    requires
        all_digits(t),
    ensures
        digits_val(t) >= 0,
    decreases t.len(),
{
    if t.len() > 0 {
        assert(all_digits(t.drop_last()));
        lemma_digits_val_nonneg(t.drop_last());
        assert(is_digit(t[t.len() - 1]));
    }
}

/// Appending one digit multiplies the value by ten and adds the digit.
pub proof fn lemma_digits_val_push(t: Seq<char>, c: char)
    ensures
        digits_val(t.push(c)) == 10 * digits_val(t) + digit_val(c),
{
    assert(t.push(c).drop_last() =~= t);
    assert(t.push(c).last() == c);
}

/// The value of a digit string is at least the value of any of its prefixes.
pub proof fn lemma_digits_val_prefix(t: Seq<char>, i: int)
    requires
        all_digits(t),
        0 <= i <= t.len(),
    ensures
        digits_val(t.subrange(0, i)) <= digits_val(t),
    decreases t.len() - i,
{
    if i == t.len() {
        assert(t.subrange(0, i) =~= t);
    } else {
        let p = t.subrange(0, i);
        let q = t.subrange(0, i + 1);
        assert(q =~= p.push(t[i]));
        lemma_digits_val_push(p, t[i]);
        assert(all_digits(p));
        lemma_digits_val_nonneg(p);
        assert(is_digit(t[i]));
        lemma_digits_val_prefix(t, i + 1);
    }
}

/// The numeric value of an ASCII digit character.
fn digit_value(c: char) -> (d: u64)
    requires
        is_digit(c),
    ensures
        d as int == digit_val(c),
{
    match c {
        '0' => 0,
        '1' => 1,
        '2' => 2,
        '3' => 3,
        '4' => 4,
        '5' => 5,
        '6' => 6,
        '7' => 7,
        '8' => 8,
        _ => {
            proof {
                assert(c as int == 57);
            }
            9
        },
    }
}

/// Parse a token as a `u32`, accepting exactly what [`spec_parse_u32`] accepts.
pub fn parse_u32(s: &str) -> (r: Option<u32>)
    ensures
        r == spec_parse_u32(s@),
{
    let chars = to_char_vec(s);
    let n = chars.len();
    let start: usize = if n > 0 && chars[0] == '+' {
        1
    } else {
        0
    };
    let ghost body = if s@.len() > 0 && s@[0] == '+' {
        s@.drop_first()
    } else {
        s@
    };
    proof {
        assert(body =~= s@.subrange(start as int, n as int));
    }
    if start >= n {
        return None;
    }
    let mut acc: u64 = 0;
    let mut i: usize = start;
    while i < n
        invariant
            chars@ == s@,
            n == s@.len(),
            start <= i <= n,
            start < n,
            body == s@.subrange(start as int, n as int),
            body == (if s@.len() > 0 && s@[0] == '+' {
                s@.drop_first()
            } else {
                s@
            }),
            all_digits(s@.subrange(start as int, i as int)),
            acc == digits_val(s@.subrange(start as int, i as int)),
            acc <= u32::MAX as u64,
        decreases n - i,
    {
        let c = chars[i];
        if c < '0' || c > '9' {
            proof {
                assert(!is_digit(s@[i as int]));
                assert(body[i - start] == s@[i as int]);
                assert(!all_digits(body));
            }
            return None;
        }
        let d = digit_value(c);
        let ghost p = s@.subrange(start as int, i as int);
        proof {
            assert(is_digit(s@[i as int]));
            assert(s@.subrange(start as int, i + 1) =~= p.push(s@[i as int]));
            lemma_digits_val_push(p, s@[i as int]);
            assert forall|j: int| 0 <= j < i + 1 - start implies is_digit(
                #[trigger] s@.subrange(start as int, i + 1)[j],
            ) by {
                if j < i - start {
                    assert(is_digit(p[j]));
                }
            }
        }
        acc = acc * 10 + d;
        if acc > u32::MAX as u64 {
            proof {
                if all_digits(body) {
                    assert(s@.subrange(start as int, i + 1) =~= body.subrange(0, i + 1 - start));
                    lemma_digits_val_prefix(body, i + 1 - start);
                }
            }
            return None;
        }
        i += 1;
    }
    proof {
        assert(body =~= s@.subrange(start as int, n as int));
    }
    Some(acc as u32)
}

/// Parse a token as an `i32`, accepting exactly what [`spec_parse_i32`] accepts.
pub fn parse_i32(s: &str) -> (r: Option<i32>)
    ensures
        r == spec_parse_i32(s@),
{
    let chars = to_char_vec(s);
    let n = chars.len();
    let neg: bool = n > 0 && chars[0] == '-';
    let start: usize = if n > 0 && (chars[0] == '-' || chars[0] == '+') {
        1
    } else {
        0
    };
    let ghost body = if s@.len() > 0 && (s@[0] == '-' || s@[0] == '+') {
        s@.drop_first()
    } else {
        s@
    };
    proof {
        assert(body =~= s@.subrange(start as int, n as int));
    }
    if start >= n {
        return None;
    }
    let mut acc: u64 = 0;
    let mut i: usize = start;
    while i < n
        invariant
            chars@ == s@,
            n == s@.len(),
            start <= i <= n,
            start < n,
            body == s@.subrange(start as int, n as int),
            body == (if s@.len() > 0 && (s@[0] == '-' || s@[0] == '+') {
                s@.drop_first()
            } else {
                s@
            }),
            neg == (s@.len() > 0 && s@[0] == '-'),
            all_digits(s@.subrange(start as int, i as int)),
            acc == digits_val(s@.subrange(start as int, i as int)),
            acc <= 0x8000_0000u64,
        decreases n - i,
    {
        let c = chars[i];
        if c < '0' || c > '9' {
            proof {
                assert(!is_digit(s@[i as int]));
                assert(body[i - start] == s@[i as int]);
                assert(!all_digits(body));
            }
            return None;
        }
        let d = digit_value(c);
        let ghost p = s@.subrange(start as int, i as int);
        proof {
            assert(is_digit(s@[i as int]));
            assert(s@.subrange(start as int, i + 1) =~= p.push(s@[i as int]));
            lemma_digits_val_push(p, s@[i as int]);
            assert forall|j: int| 0 <= j < i + 1 - start implies is_digit(
                #[trigger] s@.subrange(start as int, i + 1)[j],
            ) by {
                if j < i - start {
                    assert(is_digit(p[j]));
                }
            }
        }
        acc = acc * 10 + d;
        if acc > 0x8000_0000u64 {
            proof {
                if all_digits(body) {
                    assert(s@.subrange(start as int, i + 1) =~= body.subrange(0, i + 1 - start));
                    lemma_digits_val_prefix(body, i + 1 - start);
                }
            }
            return None;
        }
        i += 1;
    }
    proof {
        assert(body =~= s@.subrange(start as int, n as int));
    }
    if neg {
        let m = -(acc as i64);
        Some(m as i32)
    } else {
        if acc > i32::MAX as u64 {
            return None;
        }
        Some(acc as i32)
    }
}

} // verus!
