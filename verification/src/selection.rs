//! Choosing the elite of a batch: the candidates of the highest values, ties
//! going to the candidate that was drawn first.

use vstd::prelude::*;
use vstd::arithmetic::div_mod::{lemma_fundamental_div_mod, lemma_mod_pos_bound};
use crate::matrix::{all_binary, all_of_width, rows_view, SampleMatrix};

verus! {

/// The share of a batch that is kept as elite, held exactly as a ratio.
#[derive(Clone, Copy, Debug, PartialEq, Eq, Structural)]
pub struct Quantile {
    pub numerator: u64,
    pub denominator: u64,
}

impl Quantile {
    /// The ratio lies strictly between 0 and 1.
    pub open spec fn valid(self) -> bool {
        0 < self.numerator < self.denominator
    }

    /// Whether the ratio lies strictly between 0 and 1.
    pub fn is_valid(&self) -> (valid: bool)
        ensures
            valid == self.valid(),
    {
        0 < self.numerator && self.numerator < self.denominator
    }
}

/// The number of elite candidates in a batch of `sample_size`: the share
/// `quantile` of the batch, rounded up, and at least one.
pub open spec fn spec_elite_count(quantile: Quantile, sample_size: nat) -> nat {
    let scaled = quantile.numerator * sample_size;
    let whole = scaled / (quantile.denominator as int);
    let up = if scaled % (quantile.denominator as int) == 0 {
        whole
    } else {
        whole + 1
    };
    if up < 1 {
        1
    } else {
        up as nat
    }
}

/// The number of elite candidates is the least count, from one on, that is no
/// less than the share `quantile` of the batch; it is no more than the batch
/// holds.
pub proof fn lemma_elite_count(quantile: Quantile, sample_size: nat)
    requires
        quantile.valid(),
    ensures
        spec_elite_count(quantile, sample_size) >= 1,
        spec_elite_count(quantile, sample_size) * quantile.denominator >= quantile.numerator
            * sample_size,
        spec_elite_count(quantile, sample_size) == 1 || (spec_elite_count(quantile, sample_size)
            - 1) * quantile.denominator < quantile.numerator * sample_size,
        sample_size >= 1 ==> spec_elite_count(quantile, sample_size) <= sample_size,
        quantile.numerator * sample_size / (quantile.denominator as int) <= sample_size,
{
    let num = quantile.numerator as int;
    let den = quantile.denominator as int;
    let n = sample_size as int;
    let scaled = num * n;
    assert(scaled >= 0) by (nonlinear_arith)
        requires
            scaled == num * n,
            num >= 0,
            n >= 0,
    ;
    lemma_fundamental_div_mod(scaled, den);
    lemma_mod_pos_bound(scaled, den);
    let whole = scaled / den;
    let rest = scaled % den;
    assert(scaled == den * whole + rest);
    assert(whole >= 0 && (n >= 1 ==> whole < n) && whole <= n) by (nonlinear_arith)
        requires
            scaled == den * whole + rest,
            0 <= rest < den,
            scaled == num * n,
            0 < num < den,
            n >= 0,
    ;
    assert((whole + 1) * den == den * whole + den) by (nonlinear_arith);
    assert(whole * den == den * whole) by (nonlinear_arith);
    assert((whole - 1) * den == den * whole - den) by (nonlinear_arith);
    if scaled == 0 {
        assert(whole == 0) by (nonlinear_arith)
            requires
                0 == den * whole + rest,
                0 <= rest < den,
                whole >= 0,
        ;
    }
}

/// The number of elite candidates in a batch of `sample_size`.
pub fn elite_count(quantile: &Quantile, sample_size: usize) -> (count: usize)
    requires
        quantile.valid(),
    ensures
        count == spec_elite_count(*quantile, sample_size as nat),
        count >= 1,
        count * quantile.denominator >= quantile.numerator * sample_size,
        count == 1 || (count - 1) * quantile.denominator < quantile.numerator * sample_size,
        sample_size >= 1 ==> count <= sample_size,
{
    proof {
        lemma_elite_count(*quantile, sample_size as nat);
        assert(quantile.numerator * sample_size <= 0xffff_ffff_ffff_ffff * 0xffff_ffff_ffff_ffff)
            by (nonlinear_arith)
            requires
                0 <= quantile.numerator <= 0xffff_ffff_ffff_ffff,
                0 <= sample_size <= 0xffff_ffff_ffff_ffff,
        ;
    }
    let scaled: u128 = (quantile.numerator as u128) * (sample_size as u128);
    let whole: u128 = scaled / (quantile.denominator as u128);
    let rest: u128 = scaled % (quantile.denominator as u128);
    let up: usize = if rest == 0 {
        whole as usize
    } else {
        (whole + 1) as usize
    };
    if up < 1 {
        1
    } else {
        up
    }
}

/// The values as integers.
pub open spec fn as_ints(values: Seq<u128>) -> Seq<int> {
    Seq::new(values.len(), |i: int| values[i] as int)
}

/// Candidate `j` comes before candidate `i` when the batch is put in
/// descending order of value, equal values in the order drawn.
pub open spec fn outranks(values: Seq<int>, j: int, i: int) -> bool {
    values[j] > values[i] || (values[j] == values[i] && j < i)
}

/// How many of the first `upto` candidates come before candidate `i`.
pub open spec fn rank_upto(values: Seq<int>, i: int, upto: int) -> int
    decreases upto,
{
    if upto <= 0 {
        0
    } else {
        rank_upto(values, i, upto - 1) + if outranks(values, upto - 1, i) {
            1int
        } else {
            0int
        }
    }
}

/// The place of candidate `i`, from 0, when the batch is put in descending
/// order of value, equal values in the order drawn.
pub open spec fn rank(values: Seq<int>, i: int) -> int {
    rank_upto(values, i, values.len() as int)
}

/// The first candidate of the highest value among the first `upto`.
pub open spec fn leader_upto(values: Seq<int>, upto: int) -> int
    decreases upto,
{
    if upto <= 1 {
        0
    } else {
        let before = leader_upto(values, upto - 1);
        if values[upto - 1] > values[before] {
            upto - 1
        } else {
            before
        }
    }
}

/// The first candidate of the highest value.
pub open spec fn leader(values: Seq<int>) -> int {
    leader_upto(values, values.len() as int)
}

/// Among the first `upto` rows of `batch`, those whose candidates have a
/// rank below `count`, in the order drawn.
pub open spec fn elite_upto(batch: Seq<Seq<u32>>, values: Seq<int>, count: int, upto: int) -> Seq<
    Seq<u32>,
>
    decreases upto,
{
    if upto <= 0 {
        Seq::empty()
    } else {
        let before = elite_upto(batch, values, count, upto - 1);
        if rank(values, upto - 1) < count {
            before.push(batch[upto - 1])
        } else {
            before
        }
    }
}

/// The elite rows of `batch`: those whose candidates are among the `count`
/// first when the batch is put in descending order of value, equal values in
/// the order drawn.
pub open spec fn elite_rows(batch: Seq<Seq<u32>>, values: Seq<int>, count: int) -> Seq<Seq<u32>> {
    elite_upto(batch, values, count, batch.len() as int)
}

/// The leader is a candidate of the batch, no candidate is worth more, and
/// none before it is worth as much.
pub proof fn lemma_leader(values: Seq<int>, upto: int)
    requires
        1 <= upto <= values.len(),
    ensures
        0 <= leader_upto(values, upto) < upto,
        forall|j: int| 0 <= j < upto ==> #[trigger] values[j] <= values[leader_upto(values, upto)],
        forall|j: int|
            0 <= j < leader_upto(values, upto) ==> #[trigger] values[j] < values[leader_upto(
                values,
                upto,
            )],
    decreases upto,
{
    if upto > 1 {
        lemma_leader(values, upto - 1);
    }
}

/// A candidate that none of the first `upto` comes before has rank 0 among
/// them.
proof fn lemma_rank_of_unbeaten(values: Seq<int>, i: int, upto: int)
    requires
        0 <= upto <= values.len(),
        forall|j: int| 0 <= j < upto ==> !#[trigger] outranks(values, j, i),
    ensures
        rank_upto(values, i, upto) == 0,
    decreases upto,
{
    if upto > 0 {
        lemma_rank_of_unbeaten(values, i, upto - 1);
    }
}

/// No candidate comes before the leader.
pub proof fn lemma_leader_rank(values: Seq<int>)
    requires
        values.len() >= 1,
    ensures
        rank(values, leader(values)) == 0,
{
    lemma_leader(values, values.len() as int);
    lemma_rank_of_unbeaten(values, leader(values), values.len() as int);
}

/// The elite rows are rows of the batch: there are no more of them, and what
/// holds of every row of the batch holds of them.
pub proof fn lemma_elite_of_batch(
    batch: Seq<Seq<u32>>,
    values: Seq<int>,
    count: int,
    upto: int,
    width: int,
)
    requires
        0 <= upto <= batch.len(),
    ensures
        elite_upto(batch, values, count, upto).len() <= upto,
        all_binary(batch) ==> all_binary(elite_upto(batch, values, count, upto)),
        all_of_width(batch, width) ==> all_of_width(elite_upto(batch, values, count, upto), width),
    decreases upto,
{
    if upto > 0 {
        lemma_elite_of_batch(batch, values, count, upto - 1, width);
        let before = elite_upto(batch, values, count, upto - 1);
        let now = elite_upto(batch, values, count, upto);
        if all_binary(batch) {
            assert forall|i: int, j: int|
                0 <= i < now.len() && 0 <= j < now[i].len() implies #[trigger] now[i][j] <= 1 by {
                if i < before.len() {
                    assert(now[i] == before[i]);
                    assert(before[i][j] <= 1);
                } else {
                    assert(now[i] == batch[upto - 1]);
                    assert(batch[upto - 1][j] <= 1);
                }
            }
        }
        if all_of_width(batch, width) {
            assert forall|i: int| 0 <= i < now.len() implies (#[trigger] now[i]).len() == width by {
                if i < before.len() {
                    assert(now[i] == before[i]);
                } else {
                    assert(now[i] == batch[upto - 1]);
                }
            }
        }
    }
}

/// A batch with a candidate has an elite row, if one is asked for.
pub proof fn lemma_elite_not_empty(batch: Seq<Seq<u32>>, values: Seq<int>, count: int)
    requires
        batch.len() >= 1,
        values.len() == batch.len(),
        count >= 1,
    ensures
        elite_rows(batch, values, count).len() >= 1,
{
    lemma_leader_rank(values);
    lemma_leader(values, values.len() as int);
    lemma_elite_grows(batch, values, count, leader(values) + 1, batch.len() as int);
}

/// Looking at more rows of the batch never gives fewer elite rows.
proof fn lemma_elite_grows(
    batch: Seq<Seq<u32>>,
    values: Seq<int>,
    count: int,
    from: int,
    upto: int,
)
    requires
        0 <= from <= upto,
    ensures
        elite_upto(batch, values, count, from).len() <= elite_upto(batch, values, count, upto).len(),
    decreases upto - from,
{
    if from < upto {
        lemma_elite_grows(batch, values, count, from, upto - 1);
    }
}

/// The first candidate of the highest value.
pub fn leader_of(values: &Vec<u128>) -> (best: usize)
    requires
        values@.len() >= 1,
    ensures
        best == leader(as_ints(values@)),
        best < values@.len(),
        forall|j: int| 0 <= j < values@.len() ==> #[trigger] values@[j] <= values@[best as int],
        forall|j: int| 0 <= j < best ==> #[trigger] values@[j] < values@[best as int],
{
    let mut best: usize = 0;
    let mut k: usize = 1;
    while k < values.len()
        invariant
            1 <= k <= values@.len(),
            best == leader_upto(as_ints(values@), k as int),
            best < k,
        decreases values.len() - k,
    {
        if values[k] > values[best] {
            best = k;
        }
        k += 1;
    }
    proof {
        let ints = as_ints(values@);
        lemma_leader(ints, values@.len() as int);
        assert forall|j: int| 0 <= j < values@.len() implies #[trigger] values@[j]
            <= values@[best as int] by {
            assert(ints[j] <= ints[best as int]);
        }
        assert forall|j: int| 0 <= j < best implies #[trigger] values@[j] < values@[best as int] by {
            assert(ints[j] < ints[best as int]);
        }
    }
    best
}

/// The place of candidate `i`, from 0, in descending order of value, equal
/// values in the order drawn.
pub fn rank_of(values: &Vec<u128>, i: usize) -> (place: usize)
    requires
        i < values@.len(),
    ensures
        place == rank(as_ints(values@), i as int),
{
    let mut place: usize = 0;
    let mut j: usize = 0;
    while j < values.len()
        invariant
            j <= values@.len(),
            i < values@.len(),
            place <= j,
            place == rank_upto(as_ints(values@), i as int, j as int),
        decreases values.len() - j,
    {
        if values[j] > values[i] || (values[j] == values[i] && j < i) {
            place += 1;
        }
        j += 1;
    }
    place
}

/// The elite rows of `batch`, whose candidates are worth `values`.
pub fn elite_of(batch: &SampleMatrix, values: &Vec<u128>, count: usize) -> (elite: Vec<Vec<u32>>)
    requires
        values@.len() == batch@.len(),
    ensures
        rows_view(elite@) == elite_rows(batch@, as_ints(values@), count as int),
{
    let mut elite: Vec<Vec<u32>> = Vec::new();
    let rows = batch.nrows();
    let mut i: usize = 0;
    while i < rows
        invariant
            i <= rows,
            rows == batch@.len(),
            values@.len() == batch@.len(),
            rows_view(elite@) == elite_upto(batch@, as_ints(values@), count as int, i as int),
        decreases rows - i,
    {
        if rank_of(values, i) < count {
            let ghost before = rows_view(elite@);
            match batch.row(i) {
                Some(row) => {
                    elite.push(row);
                    proof {
                        assert(rows_view(elite@) =~= before.push(batch@[i as int]));
                    }
                },
                None => {},
            }
        }
        i += 1;
    }
    elite
}

} // verus!
