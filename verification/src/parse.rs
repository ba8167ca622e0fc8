//! Per-field conversion: the capability a block reader uses to turn a
//! field's text into a typed value.

use vstd::prelude::*;

verus! {

/// A type whose values can be parsed from one field of a record.
///
/// The block reader is polymorphic over this capability: the caller
/// chooses the row element type, and every field of every row is
/// parsed with it. A failure never panics; it is reported as `None`
/// and surfaced by the caller as a typed error.
pub trait FieldParse: Sized {
    /// The value the field text stands for, or `None` when the text
    /// cannot be parsed.
    spec fn parse_spec(text: Seq<char>) -> Option<Self>;

    /// Parses one field of text.
    fn parse_field(text: &str) -> (r: Option<Self>)
        ensures
            r == Self::parse_spec(text@),
    ;
}

/// A decimal digit.
pub open spec fn is_digit_char(c: char) -> bool {
    48 <= c as u32 <= 57
}

/// The value of a decimal digit.
pub open spec fn digit_val(c: char) -> int {
    c as u32 - 48
}

/// Whether every character is a decimal digit.
pub open spec fn all_digits(s: Seq<char>) -> bool {
    forall|i: int| 0 <= i < s.len() ==> is_digit_char(#[trigger] s[i])
}

/// The number a sequence of decimal digits denotes.
pub open spec fn digits_val(s: Seq<char>) -> int
    decreases s.len(),
{
    if s.len() == 0 {
        0
    } else {
        digits_val(s.drop_last()) * 10 + digit_val(s.last())
    }
}

/// The digits of an optionally signed integer text.
pub open spec fn digits_part(s: Seq<char>) -> Seq<char> {
    if s.len() > 0 && (s[0] == '+' || s[0] == '-') {
        s.drop_first()
    } else {
        s
    }
}

/// The sign of an optionally signed integer text.
pub open spec fn sign_of(s: Seq<char>) -> int {
    if s.len() > 0 && s[0] == '-' {
        -1
    } else {
        1
    }
}

/// Whether the text is an integer: an optional sign followed by one
/// or more decimal digits, nothing else.
pub open spec fn is_int_text(s: Seq<char>) -> bool {
    digits_part(s).len() > 0 && all_digits(digits_part(s))
}

/// The integer an integer text denotes.
pub open spec fn int_value(s: Seq<char>) -> int {
    sign_of(s) * digits_val(digits_part(s))
}

/// What parsing a field as an `i64` yields: the denoted value when
/// the text is an integer in range, and nothing otherwise.
pub open spec fn parse_i64(s: Seq<char>) -> Option<i64> {
    if is_int_text(s) && i64::MIN <= int_value(s) <= i64::MAX {
        Some(int_value(s) as i64)
    } else {
        None
    }
}

/// The number a digit sequence denotes is not negative.
proof fn lemma_digits_val_nonneg(s: Seq<char>)
    requires
        all_digits(s),
    ensures
        digits_val(s) >= 0,
    decreases s.len(),
{
    if s.len() > 0 {
        let t = s.drop_last();
        assert forall|i: int| 0 <= i < t.len() implies is_digit_char(#[trigger] t[i]) by {
            assert(is_digit_char(s[i]));
        }
        lemma_digits_val_nonneg(t);
        assert(is_digit_char(s[s.len() - 1]));
        assert(digits_val(s) == digits_val(t) * 10 + digit_val(s.last()));
    }
}

/// Extending a digit sequence never shrinks the number it denotes.
proof fn lemma_digits_val_extend(s: Seq<char>, k: int)
    requires
        all_digits(s),
        0 <= k <= s.len(),
    ensures
        digits_val(s) >= digits_val(s.take(k)),
    decreases s.len() - k,
{
    if k < s.len() {
        let t = s.drop_last();
        assert forall|i: int| 0 <= i < t.len() implies is_digit_char(#[trigger] t[i]) by {
            assert(is_digit_char(s[i]));
        }
        assert(t.take(k) =~= s.take(k));
        lemma_digits_val_extend(t, k);
        lemma_digits_val_nonneg(t);
        assert(is_digit_char(s[s.len() - 1]));
        assert(digits_val(s) == digits_val(t) * 10 + digit_val(s.last()));
    } else {
        assert(s.take(k) =~= s);
    }
}

impl FieldParse for i64 {
    open spec fn parse_spec(text: Seq<char>) -> Option<i64> {
        parse_i64(text)
    }

    #[verifier::loop_isolation(false)]
    fn parse_field(text: &str) -> (r: Option<i64>) {
        let n = text.unicode_len();
        if n == 0 {
            return None;
        }
        let c0 = text.get_char(0);
        let start: usize = if c0 == '+' || c0 == '-' {
            1
        } else {
            0
        };
        let neg = c0 == '-';
        if start == n {
            return None;
        }
        let ghost digits = text@.subrange(start as int, n as int);
        proof {
            assert(digits =~= digits_part(text@));
        }
        let mut mag: u128 = 0;
        let mut i: usize = start;
        while i < n
            invariant
                start <= i <= n,
                mag <= u64::MAX,
                all_digits(text@.subrange(start as int, i as int)),
                mag == digits_val(text@.subrange(start as int, i as int)),
            decreases n - i,
        {
            let ghost prefix = text@.subrange(start as int, i as int);
            let c = text.get_char(i);
            let u = c as u32;
            if u < 48 || u > 57 {
                proof {
                    assert(!is_digit_char(digits[i - start]));
                }
                return None;
            }
            let d = (u - 48) as u128;
            mag = mag * 10 + d;
            i = i + 1;
            proof {
                let prefix2 = text@.subrange(start as int, i as int);
                assert(prefix2.drop_last() =~= prefix);
                assert(mag == digits_val(prefix2));
            }
            if mag > u64::MAX as u128 {
                proof {
                    let prefix2 = text@.subrange(start as int, i as int);
                    assert(prefix2 =~= digits.take(i - start));
                    if all_digits(digits) {
                        lemma_digits_val_extend(digits, i - start);
                        assert(digits_val(digits) > u64::MAX);
                    }
                }
                return None;
            }
        }
        proof {
            assert(text@.subrange(start as int, n as int) =~= digits);
            assert(is_int_text(text@));
            assert(sign_of(text@) == if neg {
                -1int
            } else {
                1int
            });
        }
        if !neg {
            if mag <= i64::MAX as u128 {
                Some(mag as i64)
            } else {
                None
            }
        } else {
            if mag == (i64::MAX as u128) + 1 {
                Some(i64::MIN)
            } else if mag <= i64::MAX as u128 {
                Some(-(mag as i64))
            } else {
                None
            }
        }
    }
}

} // verus!
