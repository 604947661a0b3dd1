//! The per-digit weight table: construction from comma-separated rows of
//! `(digit, frequency)` text, a fixed fallback for failed loads, and the
//! diagnostics for digits without data.

use crate::digits::{
    int_text_val, is_int_text, is_uint_text, parse_digit_field, parse_uint, uint_text_val,
    DigitField,
};
use vstd::prelude::*;

verus! {

/// The sum of a sequence of weights.
pub open spec fn sum_weights(s: Seq<u32>) -> int
    decreases s.len(),
{
    if s.len() == 0 {
        0
    } else {
        sum_weights(s.drop_last()) + s.last()
    }
}

/// A sum of weights is never negative.
pub proof fn lemma_sum_nonneg(s: Seq<u32>)
    ensures
        sum_weights(s) >= 0,
    decreases s.len(),
{
    if s.len() > 0 {
        lemma_sum_nonneg(s.drop_last());
    }
}

/// A sequence with one positive weight has a positive sum.
proof fn lemma_sum_pos(s: Seq<u32>, i: int)
    requires
        0 <= i < s.len(),
        s[i] > 0,
    ensures
        sum_weights(s) > 0,
    decreases s.len(),
{
    if i == s.len() - 1 {
        lemma_sum_nonneg(s.drop_last());
    } else {
        lemma_sum_pos(s.drop_last(), i);
        lemma_sum_nonneg(s);
        assert(s.drop_last()[i] == s[i]);
    }
}

/// Taking one more weight adds exactly that weight to the prefix sum.
pub proof fn lemma_sum_take_step(s: Seq<u32>, i: int)
    requires
        0 <= i < s.len(),
    ensures
        sum_weights(s.take(i + 1)) == sum_weights(s.take(i)) + s[i],
{
    assert(s.take(i + 1).drop_last() =~= s.take(i));
    assert(s.take(i + 1).last() == s[i]);
}

/// Why a weight table could not be built.
#[derive(Clone, Copy, Debug, PartialEq, Eq, Structural)]
pub enum LoadError {
    /// The row source could not be read as comma-separated rows.
    Unreadable,
    /// A row is malformed: a missing field, or a field that is not
    /// non-negative integer text.
    BadRecord,
    /// A weight sequence does not have exactly ten entries.
    BadLength,
    /// Every weight is zero, so weighted sampling would be undefined.
    Degenerate,
}

/// The fixed weights installed when loading fails.
pub open spec fn fallback_weights() -> Seq<u32> {
    seq![10u32, 12u32, 15u32, 20u32, 18u32, 25u32, 30u32, 22u32, 17u32, 14u32]
}

/// An immutable table of one non-negative weight per decimal digit.
///
/// Every table has exactly ten entries, indexed by digit, and a positive
/// total weight, so a weighted draw over it is always defined. Its view is
/// the weight sequence.
#[derive(Debug)]
pub struct WeightTable {
    weights: Vec<u32>,
}

impl View for WeightTable {
    type V = Seq<u32>;

    closed spec fn view(&self) -> Seq<u32> {
        self.weights@
    }
}

impl WeightTable {
    /// One weight per digit, with at least one of them positive.
    #[verifier::type_invariant]
    pub open spec fn wf(self) -> bool {
        self@.len() == 10 && sum_weights(self@) > 0
    }

    /// Builds a table directly from a weight sequence, rejecting one that
    /// does not have exactly ten entries or whose weights are all zero.
    pub fn new(weights: Vec<u32>) -> (r: Result<WeightTable, LoadError>)
        ensures
            weights@.len() == 10 && sum_weights(weights@) > 0 ==> (r matches Ok(t) && t@
                == weights@),
            weights@.len() != 10 ==> r == Err::<WeightTable, LoadError>(LoadError::BadLength),
            weights@.len() == 10 && sum_weights(weights@) == 0 ==> r == Err::<
                WeightTable,
                LoadError,
            >(LoadError::Degenerate),
    {
        if weights.len() != 10 {
            return Err(LoadError::BadLength);
        }
        let total = sum_vec(&weights);
        if total == 0 {
            return Err(LoadError::Degenerate);
        }
        proof {
            lemma_sum_nonneg(weights@);
        }
        Ok(WeightTable { weights })
    }

    /// The fixed fallback table. Building it cannot fail.
    pub fn fallback() -> (t: WeightTable)
        ensures
            t@ == fallback_weights(),
    {
        let mut w: Vec<u32> = Vec::new();
        w.push(10);
        w.push(12);
        w.push(15);
        w.push(20);
        w.push(18);
        w.push(25);
        w.push(30);
        w.push(22);
        w.push(17);
        w.push(14);
        proof {
            assert(w@ =~= fallback_weights());
            lemma_sum_pos(w@, 0);
        }
        WeightTable { weights: w }
    }

    /// The weight of one digit.
    pub fn weight_at(&self, d: usize) -> (w: u32)
        requires
            d < 10,
        ensures
            self@.len() == 10,
            w == self@[d as int],
    {
        proof {
            use_type_invariant(&*self);
        }
        self.weights[d]
    }

    /// The total weight, always positive.
    pub fn total_weight(&self) -> (t: u64)
        ensures
            self@.len() == 10,
            t == sum_weights(self@),
            t > 0,
    {
        proof {
            use_type_invariant(&*self);
        }
        sum_vec(&self.weights)
    }

    /// The digits that have no frequency data, in ascending order: the
    /// subjects of the post-construction diagnostics.
    pub fn missing_digits(&self) -> (r: Vec<u8>)
        ensures
            r@ == missing_upto(self@, 10),
    {
        proof {
            use_type_invariant(&*self);
        }
        let mut r: Vec<u8> = Vec::new();
        let mut d: usize = 0;
        while d < 10
            invariant
                d <= 10,
                self@.len() == 10,
                r@ == missing_upto(self@, d as int),
            decreases 10 - d,
        {
            if self.weights[d] == 0 {
                r.push(d as u8);
            }
            d = d + 1;
        }
        r
    }
}

/// The digits among the first `n` whose weight is zero, in ascending order.
pub open spec fn missing_upto(w: Seq<u32>, n: int) -> Seq<u8>
    decreases n,
{
    if n <= 0 {
        Seq::empty()
    } else if w[n - 1] == 0 {
        missing_upto(w, n - 1).push((n - 1) as u8)
    } else {
        missing_upto(w, n - 1)
    }
}

/// Whether a row can contribute to a table: it has at least two fields,
/// the first the text of an integer of any sign and size (the digit), the
/// second the text of a non-negative integer that fits in `u32` (the
/// frequency). The frequency must parse even on a row whose digit is out
/// of range and therefore ignored.
pub open spec fn row_valid(row: Seq<Seq<char>>) -> bool {
    &&& row.len() >= 2
    &&& is_int_text(row[0])
    &&& is_uint_text(row[1]) && uint_text_val(row[1]) <= u32::MAX
}

/// Whether every row is valid; one bad row rejects the whole load.
pub open spec fn rows_valid(rows: Seq<Seq<Seq<char>>>) -> bool {
    forall|i: int| 0 <= i < rows.len() ==> row_valid(rows[i])
}

/// One row's effect on the weights: a digit in range sets its slot (a
/// later row overwrites an earlier one), a digit out of range -- a
/// negative one included -- is silently ignored.
pub open spec fn apply_row(w: Seq<u32>, row: Seq<Seq<char>>) -> Seq<u32> {
    let d = int_text_val(row[0]);
    if 0 <= d < 10 {
        w.update(d, uint_text_val(row[1]) as u32)
    } else {
        w
    }
}

/// The weights after all rows are applied in order to ten zeroed slots.
pub open spec fn built_weights(rows: Seq<Seq<Seq<char>>>) -> Seq<u32>
    decreases rows.len(),
{
    if rows.len() == 0 {
        Seq::new(10, |i: int| 0u32)
    } else {
        apply_row(built_weights(rows.drop_last()), rows.last())
    }
}

/// Built weights always have one slot per digit: only an in-range digit
/// ever touches a slot.
pub proof fn lemma_built_weights_len(rows: Seq<Seq<Seq<char>>>)
    ensures
        built_weights(rows).len() == 10,
    decreases rows.len(),
{
    if rows.len() > 0 {
        lemma_built_weights_len(rows.drop_last());
    }
}

/// A later row overwrites an earlier one: after building, the digit named
/// by the last row holds that row's frequency, whatever earlier rows said.
pub proof fn lemma_last_row_wins(rows: Seq<Seq<Seq<char>>>)
    requires
        rows.len() > 0,
        row_valid(rows.last()),
        0 <= int_text_val(rows.last()[0]) < 10,
    ensures
        built_weights(rows)[int_text_val(rows.last()[0])] == uint_text_val(rows.last()[1]),
{
    lemma_built_weights_len(rows.drop_last());
    crate::digits::lemma_uint_text_val_nonneg(rows.last()[1]);
}

/// A digit that no row names -- whether mentioned rows are valid or not --
/// keeps its zero default.
pub proof fn lemma_unmentioned_digit_zero(rows: Seq<Seq<Seq<char>>>, d: int)
    requires
        0 <= d < 10,
        forall|i: int| 0 <= i < rows.len() ==> int_text_val(#[trigger] rows[i][0]) != d,
    ensures
        built_weights(rows)[d] == 0,
    decreases rows.len(),
{
    if rows.len() > 0 {
        assert forall|i: int|
            0 <= i < rows.drop_last().len() implies int_text_val(
            #[trigger] rows.drop_last()[i][0],
        ) != d by {
            assert(rows.drop_last()[i] == rows[i]);
        }
        lemma_unmentioned_digit_zero(rows.drop_last(), d);
        lemma_built_weights_len(rows.drop_last());
        assert(int_text_val(rows[rows.len() - 1][0]) != d);
    }
}

/// A digit that some row names, where every frequency is positive, ends
/// with a positive weight: its last writer wrote a positive value.
proof fn lemma_mentioned_digit_positive(rows: Seq<Seq<Seq<char>>>, d: int)
    requires
        rows_valid(rows),
        0 <= d < 10,
        forall|i: int| 0 <= i < rows.len() ==> uint_text_val(#[trigger] rows[i][1]) > 0,
        exists|i: int| 0 <= i < rows.len() && int_text_val(#[trigger] rows[i][0]) == d,
    ensures
        built_weights(rows)[d] > 0,
    decreases rows.len(),
{
    lemma_built_weights_len(rows.drop_last());
    assert(rows[rows.len() - 1] == rows.last());
    if int_text_val(rows.last()[0]) == d {
        assert(row_valid(rows[rows.len() - 1]));
        assert(uint_text_val(rows[rows.len() - 1][1]) > 0);
    } else {
        let i0 = choose|i: int| 0 <= i < rows.len() && int_text_val(#[trigger] rows[i][0]) == d;
        assert(rows.drop_last()[i0] == rows[i0]);
        assert forall|i: int|
            0 <= i < rows.drop_last().len() implies row_valid(#[trigger] rows.drop_last()[i])
            && uint_text_val(rows.drop_last()[i][1]) > 0 by {
            assert(rows.drop_last()[i] == rows[i]);
        }
        lemma_mentioned_digit_positive(rows.drop_last(), d);
    }
}

/// Rows that are valid, carry only positive frequencies, and name no
/// digit of five or more -- with at least one named digit in range --
/// load successfully into a table whose slots five through nine are zero.
pub proof fn lemma_low_digits_load(rows: Seq<Seq<Seq<char>>>, r: Result<WeightTable, LoadError>)
    requires
        load_outcome(rows, r),
        rows_valid(rows),
        forall|i: int| 0 <= i < rows.len() ==> uint_text_val(#[trigger] rows[i][1]) > 0,
        forall|i: int| 0 <= i < rows.len() ==> int_text_val(#[trigger] rows[i][0]) < 5,
        exists|i: int| 0 <= i < rows.len() && int_text_val(#[trigger] rows[i][0]) >= 0,
    ensures
        r matches Ok(t) && t@ == built_weights(rows) && (forall|d: int|
            5 <= d < 10 ==> t@[d] == 0),
{
    lemma_built_weights_len(rows);
    assert forall|d: int| 5 <= d < 10 implies built_weights(rows)[d] == 0 by {
        lemma_unmentioned_digit_zero(rows, d);
    }
    let i0 = choose|i: int| 0 <= i < rows.len() && int_text_val(#[trigger] rows[i][0]) >= 0;
    lemma_mentioned_digit_positive(rows, int_text_val(rows[i0][0]));
    lemma_sum_pos(built_weights(rows), int_text_val(rows[i0][0]));
}

/// What building a table from rows must return: the built weights when
/// every row is valid and some weight is positive, and otherwise the error
/// that names what went wrong.
pub open spec fn load_outcome(rows: Seq<Seq<Seq<char>>>, r: Result<WeightTable, LoadError>) -> bool {
    &&& rows_valid(rows) && sum_weights(built_weights(rows)) > 0 ==> (r matches Ok(t) && t@
        == built_weights(rows))
    &&& rows_valid(rows) && sum_weights(built_weights(rows)) == 0 ==> r == Err::<
        WeightTable,
        LoadError,
    >(LoadError::Degenerate)
    &&& !rows_valid(rows) ==> r == Err::<WeightTable, LoadError>(LoadError::BadRecord)
}

impl WeightTable {
    /// Builds a table from rows of `(digit, frequency)` field text.
    pub fn from_rows(rows: &Vec<Vec<String>>) -> (r: Result<WeightTable, LoadError>)
        ensures
            load_outcome(rows.deep_view(), r),
    {
        let ghost dv: Seq<Seq<Seq<char>>> = rows.deep_view();
        let mut w: Vec<u32> = Vec::new();
        let mut z: usize = 0;
        while z < 10
            invariant
                z <= 10,
                w@ =~= Seq::new(z as nat, |i: int| 0u32),
            decreases 10 - z,
        {
            w.push(0);
            z = z + 1;
        }
        let mut idx: usize = 0;
        while idx < rows.len()
            invariant
                idx <= rows.len(),
                dv == rows.deep_view(),
                dv.len() == rows@.len(),
                forall|j: int| 0 <= j < idx ==> row_valid(dv[j]),
                w@.len() == 10,
                w@ == built_weights(dv.take(idx as int)),
            decreases rows.len() - idx,
        {
            let row: &Vec<String> = &rows[idx];
            proof {
                assert(dv[idx as int] == row.deep_view());
            }
            if row.len() < 2 {
                proof {
                    assert(!row_valid(dv[idx as int]));
                }
                return Err(LoadError::BadRecord);
            }
            let slot: Option<u8> = match parse_digit_field(row[0].as_str()) {
                DigitField::NotInt => {
                    proof {
                        assert(row.deep_view()[0] == row@[0]@);
                        assert(!row_valid(dv[idx as int]));
                    }
                    return Err(LoadError::BadRecord);
                },
                DigitField::OutOfRange => None,
                DigitField::InRange(d) => Some(d),
            };
            let f = match parse_uint(row[1].as_str(), u32::MAX as u64) {
                Some(f) => f,
                None => {
                    proof {
                        assert(row.deep_view()[1] == row@[1]@);
                        assert(!row_valid(dv[idx as int]));
                    }
                    return Err(LoadError::BadRecord);
                },
            };
            proof {
                assert(row.deep_view()[0] == row@[0]@);
                assert(row.deep_view()[1] == row@[1]@);
                assert(row_valid(dv[idx as int]));
                assert(dv.take(idx + 1).drop_last() =~= dv.take(idx as int));
                assert(dv.take(idx + 1).last() == dv[idx as int]);
            }
            match slot {
                Some(d) => {
                    w.set(d as usize, f as u32);
                    proof {
                        assert(w@ =~= apply_row(
                            built_weights(dv.take(idx as int)),
                            dv[idx as int],
                        ));
                    }
                },
                None => {
                    proof {
                        assert(w@ =~= apply_row(
                            built_weights(dv.take(idx as int)),
                            dv[idx as int],
                        ));
                    }
                },
            }
            idx = idx + 1;
        }
        proof {
            assert(dv.take(rows@.len() as int) =~= dv);
        }
        let total = sum_vec(&w);
        if total == 0 {
            return Err(LoadError::Degenerate);
        }
        proof {
            lemma_sum_nonneg(w@);
        }
        Ok(WeightTable { weights: w })
    }
}

#[verifier::external_type_specification]
#[verifier::external_body]
pub struct ExCsvError(csv::Error);

/// What the comma-separated reader yields for a given text: `None` when it
/// rejects the text, otherwise each data row as its sequence of fields,
/// with surrounding whitespace removed from every field.
pub uninterp spec fn csv_rows(s: Seq<char>) -> Option<Seq<Seq<Seq<char>>>>;

/// Relies on csv::Reader, built with whitespace trimming of all fields:
/// it splits in-memory text into rows of fields, and its outcome is a
/// function of the text alone.
#[verifier::external_body]
fn read_rows(text: &str) -> (r: Result<Vec<Vec<String>>, csv::Error>)
    ensures
        r is Ok <==> csv_rows(text@) is Some,
        r matches Ok(rows) ==> Some(rows.deep_view()) == csv_rows(text@),
{
    let mut builder = csv::ReaderBuilder::new();
    builder.trim(csv::Trim::All);
    let mut rdr = builder.from_reader(text.as_bytes());
    let mut out: Vec<Vec<String>> = Vec::new();
    for rec in rdr.records() {
        match rec {
            Ok(r) => out.push(r.iter().map(|f| f.to_string()).collect()),
            Err(e) => return Err(e),
        }
    }
    Ok(out)
}

/// Whether loading from this text yields a usable table.
pub open spec fn load_succeeds(s: Seq<char>) -> bool {
    csv_rows(s) matches Some(rs) && rows_valid(rs) && sum_weights(built_weights(rs)) > 0
}

/// The error a failed load reports for this text.
pub open spec fn load_failure(s: Seq<char>, e: LoadError) -> bool {
    match csv_rows(s) {
        Option::None => e == LoadError::Unreadable,
        Option::Some(rs) => if !rows_valid(rs) {
            e == LoadError::BadRecord
        } else {
            e == LoadError::Degenerate
        },
    }
}

impl WeightTable {
    /// Builds a table from comma-separated `(digit, frequency)` text.
    pub fn load_statistics(text: &str) -> (r: Result<WeightTable, LoadError>)
        ensures
            r == Err::<WeightTable, LoadError>(LoadError::Unreadable) <==> csv_rows(text@)
                is None,
            csv_rows(text@) matches Some(rs) ==> load_outcome(rs, r),
    {
        match read_rows(text) {
            Err(_) => Err(LoadError::Unreadable),
            Ok(rows) => {
                let r = WeightTable::from_rows(&rows);
                proof {
                    lemma_sum_nonneg(built_weights(rows.deep_view()));
                }
                r
            },
        }
    }
}

/// The one-shot startup sequence: attempt a load from the source text, and
/// on any failure -- an unreadable source included -- install the fallback
/// table. The second component reports the failure that forced the
/// fallback, and `None` reports a successful load. This never fails.
pub fn startup_table(source: &Option<String>) -> (r: (WeightTable, Option<LoadError>))
    ensures
        source matches Some(text) ==> (load_succeeds(text@) ==> r.1 is None && (
        csv_rows(text@) matches Some(rs) && r.0@ == built_weights(rs))),
        source matches Some(text) ==> (!load_succeeds(text@) ==> r.0@ == fallback_weights() && (
        r.1 matches Some(e) && load_failure(text@, e))),
        source is None ==> (r.0@ == fallback_weights() && r.1 == Some(LoadError::Unreadable)),
{
    match source {
        None => (WeightTable::fallback(), Some(LoadError::Unreadable)),
        Some(text) => match WeightTable::load_statistics(text.as_str()) {
            Ok(t) => {
                proof {
                    match csv_rows(text@) {
                        Option::Some(rs) => lemma_sum_nonneg(built_weights(rs)),
                        Option::None => (),
                    }
                }
                (t, None)
            },
            Err(e) => {
                proof {
                    match csv_rows(text@) {
                        Option::Some(rs) => lemma_sum_nonneg(built_weights(rs)),
                        Option::None => (),
                    }
                }
                (WeightTable::fallback(), Some(e))
            },
        },
    }
}

/// Sums ten weights; the result fits in a `u64`.
fn sum_vec(w: &Vec<u32>) -> (t: u64)
    requires
        w@.len() == 10,
    ensures
        t == sum_weights(w@),
{
    let mut acc: u64 = 0;
    let mut i: usize = 0;
    while i < 10
        invariant
            i <= 10,
            w@.len() == 10,
            acc == sum_weights(w@.take(i as int)),
            acc <= i * 0xffff_ffffu64,
        decreases 10 - i,
    {
        proof {
            lemma_sum_take_step(w@, i as int);
        }
        acc = acc + w[i] as u64;
        i = i + 1;
    }
    proof {
        assert(w@.take(10) =~= w@);
    }
    acc
}

} // verus!

