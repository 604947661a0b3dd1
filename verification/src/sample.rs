//! Weighted digit sampling: single draws and fixed-length digit strings.
//!
//! A draw picks a uniformly random point below the table's total weight
//! and maps it to the digit whose band of cumulative weight contains it,
//! so each digit is drawn with probability proportional to its weight.
//! Every table has a positive total weight -- a degenerate table is
//! rejected at construction time -- so a draw is always defined and
//! sampling cannot fail.

use crate::digits::{digit_char, digit_of, is_digit_char};
use crate::table::{lemma_sum_nonneg, lemma_sum_take_step, sum_weights, WeightTable};
use vstd::prelude::*;

verus! {

/// Relies on rand::random_range over `0..n`: a value drawn from that
/// range by the thread-local generator. Nothing relates one draw to
/// another.
#[verifier::external_body]
fn random_below(n: u64) -> (r: u64)
    requires
        n > 0,
    ensures
        r < n,
{
    rand::random_range(0..n)
}

/// The sum of the weights of the digits below `d`: the lower end of
/// digit `d`'s band.
pub open spec fn band_start(w: Seq<u32>, d: int) -> int {
    sum_weights(w.take(d))
}

/// Maps a point below the total weight to the digit whose band contains
/// it: the unique `d` with `band_start(d) <= point < band_start(d + 1)`.
/// This is the deterministic heart of a draw; such a digit always has a
/// positive weight.
pub fn pick_digit(table: &WeightTable, point: u64) -> (d: u8)
    requires
        point < sum_weights(table@),
    ensures
        d < 10,
        band_start(table@, d as int) <= point < band_start(table@, d as int + 1),
        table@[d as int] > 0,
{
    let total = table.total_weight();
    let mut acc: u64 = 0;
    let mut i: usize = 0;
    while i < 10
        invariant
            i <= 10,
            table@.len() == 10,
            point < total == sum_weights(table@),
            acc == band_start(table@, i as int),
            acc <= point,
        decreases 10 - i,
    {
        proof {
            lemma_sum_take_step(table@, i as int);
            lemma_sum_nonneg(table@.take(i as int));
            assert(acc + table@[i as int] <= sum_weights(table@)) by {
                lemma_band_start_bounded(table@, i as int + 1);
            }
        }
        let w = table.weight_at(i);
        if point < acc + w as u64 {
            return i as u8;
        }
        acc = acc + w as u64;
        i = i + 1;
    }
    proof {
        assert(table@.take(10) =~= table@);
        assert(false);
    }
    0
}

/// A band never extends past the total weight.
proof fn lemma_band_start_bounded(w: Seq<u32>, d: int)
    requires
        0 <= d <= w.len(),
    ensures
        band_start(w, d) <= sum_weights(w),
    decreases w.len() - d,
{
    if d == w.len() {
        assert(w.take(d) =~= w);
    } else {
        lemma_sum_take_step(w, d);
        lemma_band_start_bounded(w, d + 1);
    }
}

/// Draws one digit, each digit with probability proportional to its
/// weight. Only a digit with a positive weight can come out. Each call
/// draws independently from the thread-local generator.
pub fn sample_digit(table: &WeightTable) -> (d: u8)
    ensures
        d < 10,
        table@[d as int] > 0,
{
    let total = table.total_weight();
    let point = random_below(total);
    pick_digit(table, point)
}

/// The one-character text of a digit.
fn digit_str(d: u8) -> (r: &'static str)
    requires
        d < 10,
    ensures
        r@.len() == 1,
        r@[0] == digit_char(d as int),
{
    proof {
        reveal_strlit("0");
        reveal_strlit("1");
        reveal_strlit("2");
        reveal_strlit("3");
        reveal_strlit("4");
        reveal_strlit("5");
        reveal_strlit("6");
        reveal_strlit("7");
        reveal_strlit("8");
        reveal_strlit("9");
    }
    match d {
        0 => "0",
        1 => "1",
        2 => "2",
        3 => "3",
        4 => "4",
        5 => "5",
        6 => "6",
        7 => "7",
        8 => "8",
        _ => "9",
    }
}

/// Assembles a string of `n_digits` decimal characters, each drawn
/// independently from the table in draw order, leading zeros kept. Every
/// character is a digit whose weight in the table is positive.
pub fn generate_number(table: &WeightTable, n_digits: usize) -> (s: String)
    ensures
        s@.len() == n_digits,
        forall|i: int|
            0 <= i < s@.len() ==> is_digit_char(s@[i]) && table@[digit_of(s@[i])] > 0,
{
    let mut s = String::new();
    let mut k: usize = 0;
    while k < n_digits
        invariant
            k <= n_digits,
            s@.len() == k,
            forall|i: int|
                0 <= i < s@.len() ==> is_digit_char(s@[i]) && table@[digit_of(s@[i])] > 0,
        decreases n_digits - k,
    {
        let d = sample_digit(table);
        let c = digit_str(d);
        proof {
            assert(is_digit_char(digit_char(d as int)));
            assert(digit_of(digit_char(d as int)) == d as int);
        }
        s.append(c);
        k = k + 1;
    }
    s
}

} // verus!
