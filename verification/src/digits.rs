//! Decimal digit characters, non-negative integer text, and the reading
//! of a digit field as a signed integer of any size.

use vstd::prelude::*;

verus! {

/// Whether `c` is a decimal digit character, `'0'` through `'9'`.
pub open spec fn is_digit_char(c: char) -> bool {
    '0' <= c && c <= '9'
}

/// The numeric value of a digit character.
pub open spec fn digit_of(c: char) -> int {
    c as int - '0' as int
}

/// The digit character for a value in `0..10`.
pub open spec fn digit_char(d: int) -> char {
    if d == 0 {
        '0'
    } else if d == 1 {
        '1'
    } else if d == 2 {
        '2'
    } else if d == 3 {
        '3'
    } else if d == 4 {
        '4'
    } else if d == 5 {
        '5'
    } else if d == 6 {
        '6'
    } else if d == 7 {
        '7'
    } else if d == 8 {
        '8'
    } else {
        '9'
    }
}

/// Whether every character of `s` is a decimal digit.
pub open spec fn all_digits(s: Seq<char>) -> bool {
    forall|i: int| 0 <= i < s.len() ==> is_digit_char(s[i])
}

/// The value of a sequence of digit characters, most significant first.
pub open spec fn uint_val(s: Seq<char>) -> int
    decreases s.len(),
{
    if s.len() == 0 {
        0
    } else {
        uint_val(s.drop_last()) * 10 + digit_of(s.last())
    }
}

/// The digit characters of an integer text: the text itself, or what
/// follows a single leading `'+'`.
pub open spec fn digits_part(s: Seq<char>) -> Seq<char> {
    if s.len() > 0 && s[0] == '+' {
        s.subrange(1, s.len() as int)
    } else {
        s
    }
}

/// Whether `s` is the text of a non-negative integer: at least one digit,
/// optionally preceded by `'+'`.
pub open spec fn is_uint_text(s: Seq<char>) -> bool {
    digits_part(s).len() > 0 && all_digits(digits_part(s))
}

/// The value of a non-negative integer text.
pub open spec fn uint_text_val(s: Seq<char>) -> int {
    uint_val(digits_part(s))
}

/// The value of a sequence of digit characters is non-negative.
proof fn lemma_uint_val_nonneg(s: Seq<char>)
    requires
        all_digits(s),
    ensures
        uint_val(s) >= 0,
    decreases s.len(),
{
    if s.len() > 0 {
        lemma_uint_val_nonneg(s.drop_last());
    }
}

/// Dropping trailing digits never increases the value.
proof fn lemma_uint_val_prefix(s: Seq<char>, j: int)
    requires
        all_digits(s),
        0 <= j <= s.len(),
    ensures
        uint_val(s.take(j)) <= uint_val(s),
    decreases s.len(),
{
    if j == s.len() {
        assert(s.take(j) =~= s);
    } else {
        assert(s.drop_last().take(j) =~= s.take(j));
        lemma_uint_val_prefix(s.drop_last(), j);
        lemma_uint_val_nonneg(s.drop_last());
    }
}

/// The value of a non-negative integer text is never negative.
pub proof fn lemma_uint_text_val_nonneg(s: Seq<char>)
    requires
        is_uint_text(s),
    ensures
        uint_text_val(s) >= 0,
{
    lemma_uint_val_nonneg(digits_part(s));
}

/// The digit characters of a signed integer text: the text itself, or
/// what follows a single leading `'+'` or `'-'`.
pub open spec fn sign_stripped(s: Seq<char>) -> Seq<char> {
    if s.len() > 0 && (s[0] == '+' || s[0] == '-') {
        s.subrange(1, s.len() as int)
    } else {
        s
    }
}

/// Whether `s` is the text of an integer: at least one digit, optionally
/// preceded by a single `'+'` or `'-'`.
pub open spec fn is_int_text(s: Seq<char>) -> bool {
    sign_stripped(s).len() > 0 && all_digits(sign_stripped(s))
}

/// The value of an integer text.
pub open spec fn int_text_val(s: Seq<char>) -> int {
    if s.len() > 0 && s[0] == '-' {
        -uint_val(sign_stripped(s))
    } else {
        uint_val(sign_stripped(s))
    }
}

/// A sequence of zero characters has value zero.
proof fn lemma_all_zero_val(t: Seq<char>)
    requires
        forall|j: int| 0 <= j < t.len() ==> t[j] == '0',
    ensures
        uint_val(t) == 0,
    decreases t.len(),
{
    if t.len() > 0 {
        lemma_all_zero_val(t.drop_last());
    }
}

/// Leading zero characters do not change the value.
proof fn lemma_strip_zeros(t: Seq<char>, k: int)
    requires
        all_digits(t),
        0 <= k <= t.len(),
        forall|j: int| 0 <= j < k ==> t[j] == '0',
    ensures
        uint_val(t) == uint_val(t.subrange(k, t.len() as int)),
    decreases t.len(),
{
    if k == t.len() {
        lemma_all_zero_val(t);
    } else {
        lemma_strip_zeros(t.drop_last(), k);
        assert(t.subrange(k, t.len() as int).drop_last() =~= t.drop_last().subrange(
            k,
            t.len() - 1,
        ));
        assert(t.subrange(k, t.len() as int).last() == t.last());
    }
}

/// Digits led by a non-zero digit have a value of at least one, and of at
/// least ten when there are two or more of them.
proof fn lemma_nonzero_lead(t: Seq<char>)
    requires
        all_digits(t),
        t.len() >= 1,
        t[0] != '0',
    ensures
        uint_val(t) >= 1,
        t.len() >= 2 ==> uint_val(t) >= 10,
    decreases t.len(),
{
    if t.len() == 1 {
        assert(uint_val(t.drop_last()) == 0);
    } else {
        lemma_nonzero_lead(t.drop_last());
    }
}

/// How a digit field reads as a table slot.
#[derive(Clone, Copy, Debug, PartialEq, Eq, Structural)]
pub enum DigitField {
    /// The field is not the text of an integer.
    NotInt,
    /// The field is an integer outside `0..10`; such a row is ignored.
    OutOfRange,
    /// The field is a digit value in `0..10`.
    InRange(u8),
}

/// Reads a digit field as integer text of any size: not an integer, an
/// integer outside `0..10` (a negative one included), or the digit value.
pub fn parse_digit_field(s: &str) -> (r: DigitField)
    ensures
        r is NotInt <==> !is_int_text(s@),
        r is InRange <==> is_int_text(s@) && 0 <= int_text_val(s@) < 10,
        r matches DigitField::InRange(d) ==> d == int_text_val(s@),
        r is OutOfRange <==> is_int_text(s@) && !(0 <= int_text_val(s@) < 10),
{
    let len: usize = s.unicode_len();
    if len == 0 {
        return DigitField::NotInt;
    }
    let first = s.get_char(0);
    let neg: bool = first == '-';
    let start: usize = if first == '-' || first == '+' {
        1
    } else {
        0
    };
    proof {
        assert(sign_stripped(s@) =~= s@.subrange(start as int, len as int));
    }
    if start == len {
        return DigitField::NotInt;
    }
    let mut i: usize = start;
    let mut first_nz: usize = len;
    while i < len
        invariant
            start <= i <= len,
            s@.len() == len,
            sign_stripped(s@) =~= s@.subrange(start as int, len as int),
            all_digits(s@.subrange(start as int, i as int)),
            first_nz == len || (start <= first_nz < i && s@[first_nz as int] != '0'),
            forall|j: int|
                start <= j < i && j < first_nz ==> s@[j] == '0',
        decreases len - i,
    {
        let c = s.get_char(i);
        let u: u32 = c as u32;
        if u < 48 || u > 57 {
            proof {
                assert(!is_digit_char(s@[i as int]));
                assert(sign_stripped(s@)[i - start] == s@[i as int]);
            }
            return DigitField::NotInt;
        }
        if u != 48 && first_nz == len {
            first_nz = i;
        }
        i = i + 1;
    }
    let ghost stripped: Seq<char> = sign_stripped(s@);
    proof {
        assert(stripped =~= s@.subrange(start as int, len as int));
        assert(is_int_text(s@));
    }
    if first_nz == len {
        proof {
            lemma_all_zero_val(stripped);
        }
        return DigitField::InRange(0);
    }
    proof {
        lemma_strip_zeros(stripped, first_nz - start);
        assert(stripped.subrange(first_nz - start, stripped.len() as int) =~= s@.subrange(
            first_nz as int,
            len as int,
        ));
        lemma_nonzero_lead(s@.subrange(first_nz as int, len as int));
    }
    if neg {
        return DigitField::OutOfRange;
    }
    if len - first_nz >= 2 {
        return DigitField::OutOfRange;
    }
    let c = s.get_char(first_nz);
    let d: u8 = ((c as u32) - 48) as u8;
    proof {
        assert(s@.subrange(first_nz as int, len as int) =~= seq![s@[first_nz as int]]);
        assert(seq![s@[first_nz as int]].drop_last() =~= Seq::<char>::empty());
        assert(uint_val(Seq::<char>::empty()) == 0);
        assert(uint_val(seq![s@[first_nz as int]]) == digit_of(s@[first_nz as int]));
    }
    DigitField::InRange(d)
}

/// Parses `s` as a non-negative integer no greater than `max`: one or more
/// decimal digits, optionally preceded by `'+'`. Mirrors how unsigned
/// integer text is read elsewhere in Rust: no other characters are
/// accepted, and a value over `max` is a failure, not a truncation.
pub fn parse_uint(s: &str, max: u64) -> (r: Option<u64>)
    ensures
        r is Some <==> is_uint_text(s@) && uint_text_val(s@) <= max,
        r matches Some(v) ==> v == uint_text_val(s@),
{
    let len: usize = s.unicode_len();
    if len == 0 {
        return None;
    }
    let first = s.get_char(0);
    let start: usize = if first == '+' {
        1
    } else {
        0
    };
    proof {
        assert(digits_part(s@) =~= s@.subrange(start as int, len as int));
    }
    if start == len {
        return None;
    }
    let mut i: usize = start;
    let mut value: u64 = 0;
    while i < len
        invariant
            start <= i <= len,
            s@.len() == len,
            digits_part(s@) =~= s@.subrange(start as int, len as int),
            all_digits(s@.subrange(start as int, i as int)),
            value == uint_val(s@.subrange(start as int, i as int)),
            value <= max,
        decreases len - i,
    {
        let c = s.get_char(i);
        let u: u32 = c as u32;
        if u < 48 || u > 57 {
            proof {
                assert(!is_digit_char(s@[i as int]));
                assert(digits_part(s@)[i - start] == s@[i as int]);
            }
            return None;
        }
        let d: u64 = (u - 48) as u64;
        proof {
            assert(is_digit_char(s@[i as int]));
            assert(s@.subrange(start as int, i + 1) =~= s@.subrange(
                start as int,
                i as int,
            ).push(s@[i as int]));
            assert(d == digit_of(s@[i as int]));
        }
        let next = match value.checked_mul(10) {
            Some(v10) => v10.checked_add(d),
            None => None,
        };
        let ghost ext: Seq<char> = s@.subrange(start as int, i + 1);
        proof {
            assert(ext.drop_last() =~= s@.subrange(start as int, i as int));
            assert(ext.last() == s@[i as int]);
            assert(uint_val(ext) == value * 10 + d);
            if is_uint_text(s@) {
                lemma_uint_val_prefix(digits_part(s@), i + 1 - start);
                assert(digits_part(s@).take(i + 1 - start) =~= ext);
            }
        }
        match next {
            Some(v) => {
                if v > max {
                    return None;
                }
                value = v;
            },
            None => {
                proof {
                    assert(value * 10 + d > u64::MAX);
                }
                return None;
            },
        }
        i = i + 1;
    }
    proof {
        assert(s@.subrange(start as int, len as int) =~= digits_part(s@));
    }
    Some(value)
}

} // verus!
