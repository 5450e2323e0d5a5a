//! The sampling model: one independent Bernoulli distribution per item type,
//! each given by the probability that the item type is selected.

use vstd::prelude::*;
use rand::rngs::StdRng;
use crate::error::{Argument, CeError};
use crate::matrix::{
    all_binary, column_sum, flatten, lemma_rows_of_flatten, shape_holds, SampleMatrix,
};
use crate::random::draw_ratio;

verus! {

/// A probability, held exactly as a ratio.
#[derive(Clone, Copy, Debug, PartialEq, Eq, Structural)]
pub struct Probability {
    pub numerator: u32,
    pub denominator: u32,
}

/// A parameter this close to 0 or to 1, as one part in so many, counts as
/// settled.
pub const SETTLED_WITHIN: u64 = 1_000_000;

impl Probability {
    /// The ratio is a probability: it lies between 0 and 1.
    pub open spec fn wf(self) -> bool {
        0 < self.denominator && self.numerator <= self.denominator
    }

    /// The probability is one half.
    pub open spec fn is_half(self) -> bool {
        2 * self.numerator == self.denominator
    }

    /// The probability is within one part in `SETTLED_WITHIN` of 0 or of 1.
    pub open spec fn settled(self) -> bool {
        ||| self.numerator * SETTLED_WITHIN <= self.denominator
        ||| (self.denominator - self.numerator) * SETTLED_WITHIN <= self.denominator
    }

    /// Whether the probability is within one part in `SETTLED_WITHIN` of 0 or
    /// of 1.
    pub fn is_settled(&self) -> (settled: bool)
        requires
            self.wf(),
        ensures
            settled == self.settled(),
    {
        let low = self.numerator as u64 * SETTLED_WITHIN;
        let high = (self.denominator - self.numerator) as u64 * SETTLED_WITHIN;
        low <= self.denominator as u64 || high <= self.denominator as u64
    }
}

/// `row` can be drawn from the distributions `parameters`: it has one cell
/// for each, every cell is 0 or 1, and a cell whose probability is 0 or 1 is
/// that number.
pub open spec fn is_draw(parameters: Seq<Probability>, row: Seq<u32>) -> bool {
    &&& row.len() == parameters.len()
    &&& forall|k: int|
        0 <= k < row.len() ==> {
            &&& #[trigger] row[k] <= 1
            &&& parameters[k].numerator == 0 ==> row[k] == 0
            &&& parameters[k].numerator == parameters[k].denominator ==> row[k] == 1
        }
}

/// The share of 1s in each of the first `dimension` columns of `rows`.
pub open spec fn column_means(rows: Seq<Seq<u32>>, dimension: nat) -> Seq<Probability> {
    Seq::new(
        dimension,
        |j: int|
            Probability {
                numerator: column_sum(rows, j) as u32,
                denominator: rows.len() as u32,
            },
    )
}

/// `rows`, of `width` columns, can refit a model of `dimension` parameters:
/// there is a row, no more rows than a `u32` counts, one column for each
/// parameter, and every cell is 0 or 1.
pub open spec fn is_elite_set(rows: Seq<Seq<u32>>, width: nat, dimension: nat) -> bool {
    &&& 0 < rows.len() <= u32::MAX
    &&& width == dimension
    &&& all_binary(rows)
}

/// A product of independent Bernoulli distributions.
#[derive(Debug)]
pub struct BernoulliProduct {
    parameters: Vec<Probability>,
}

/// A model is seen as its parameters, one per item type.
impl View for BernoulliProduct {
    type V = Seq<Probability>;

    closed spec fn view(&self) -> Seq<Probability> {
        self.parameters@
    }
}

impl BernoulliProduct {
    /// Every parameter lies between 0 and 1.
    #[verifier::type_invariant]
    spec fn every_parameter_is_a_probability(&self) -> bool {
        forall|k: int| 0 <= k < self.parameters@.len() ==> (#[trigger] self.parameters@[k]).wf()
    }

    /// The model of the given dimension in which every item type is selected
    /// with probability one half.
    pub fn new(dimension: usize) -> (model: BernoulliProduct)
        ensures
            model@.len() == dimension,
            forall|k: int|
                0 <= k < dimension ==> #[trigger] model@[k] == (Probability {
                    numerator: 1,
                    denominator: 2,
                }),
    {
        let mut parameters: Vec<Probability> = Vec::new();
        let mut k: usize = 0;
        while k < dimension
            invariant
                k <= dimension,
                parameters@.len() == k,
                forall|j: int|
                    0 <= j < k ==> #[trigger] parameters@[j] == (Probability {
                        numerator: 1,
                        denominator: 2,
                    }),
            decreases dimension - k,
        {
            parameters.push(Probability { numerator: 1, denominator: 2 });
            k += 1;
        }
        BernoulliProduct { parameters }
    }

    /// The number of parameters.
    pub fn dim(&self) -> (dimension: usize)
        ensures
            dimension == self@.len(),
    {
        self.parameters.len()
    }

    /// The parameters, one per item type.
    pub fn parameters(&self) -> (parameters: Vec<Probability>)
        ensures
            parameters@ == self@,
            forall|k: int| 0 <= k < self@.len() ==> (#[trigger] self@[k]).wf(),
    {
        proof {
            use_type_invariant(self);
        }
        let mut parameters: Vec<Probability> = Vec::new();
        let mut k: usize = 0;
        while k < self.parameters.len()
            invariant
                k <= self.parameters@.len(),
                parameters@ == self.parameters@.take(k as int),
            decreases self.parameters.len() - k,
        {
            parameters.push(self.parameters[k]);
            proof {
                assert(self.parameters@.take(k + 1) =~= self.parameters@.take(k as int).push(
                    self.parameters@[k as int],
                ));
            }
            k += 1;
        }
        proof {
            assert(self.parameters@.take(k as int) =~= self.parameters@);
        }
        parameters
    }

    /// Draws one candidate: for each item type in turn, one draw from the
    /// random source that is 1 with that item type's probability.
    pub fn sample(&self, rng: &mut StdRng) -> (row: Vec<u32>)
        ensures
            is_draw(self@, row@),
    {
        proof {
            use_type_invariant(self);
        }
        let mut row: Vec<u32> = Vec::new();
        let mut k: usize = 0;
        while k < self.parameters.len()
            invariant
                k <= self.parameters@.len(),
                forall|j: int|
                    0 <= j < self.parameters@.len() ==> (#[trigger] self.parameters@[j]).wf(),
                is_draw(self.parameters@.take(k as int), row@),
            decreases self.parameters.len() - k,
        {
            let p = self.parameters[k];
            let hit = draw_ratio(rng, p.numerator, p.denominator);
            row.push(
                if hit {
                    1
                } else {
                    0
                },
            );
            k += 1;
        }
        proof {
            assert(self.parameters@.take(k as int) =~= self.parameters@);
        }
        row
    }

    /// Draws `sample_size` candidates, one after the other, as the rows of a
    /// matrix. No candidates cannot be asked for, nor more than the machine
    /// can hold in a matrix.
    pub fn sample_matrix(&self, sample_size: usize, rng: &mut StdRng) -> (batch: Result<
        SampleMatrix,
        CeError,
    >)
        ensures
            batch is Err <==> sample_size == 0 || !shape_holds(
                sample_size as int,
                self@.len() as int,
                sample_size * self@.len(),
            ),
            batch matches Err(error) ==> error == (CeError::InvalidArgument {
                argument: Argument::SampleSize,
            }),
            batch matches Ok(m) ==> {
                &&& m@.len() == sample_size
                &&& m.width() == self@.len()
                &&& forall|i: int| 0 <= i < m@.len() ==> is_draw(self@, #[trigger] m@[i])
            },
    {
        let dimension = self.parameters.len();
        if sample_size == 0 || !SampleMatrix::shape_fits(sample_size, dimension) {
            return Err(CeError::InvalidArgument { argument: Argument::SampleSize });
        }
        let mut cells: Vec<u32> = Vec::new();
        let ghost mut drawn: Seq<Seq<u32>> = Seq::empty();
        let mut i: usize = 0;
        while i < sample_size
            invariant
                i <= sample_size,
                dimension == self@.len(),
                drawn.len() == i,
                forall|a: int| 0 <= a < i ==> is_draw(self@, #[trigger] drawn[a]),
                cells@ == flatten(drawn),
            decreases sample_size - i,
        {
            let row = self.sample(rng);
            let ghost before = cells@;
            let mut j: usize = 0;
            while j < row.len()
                invariant
                    j <= row.len(),
                    cells@ == before + row@.take(j as int),
                decreases row.len() - j,
            {
                cells.push(row[j]);
                proof {
                    assert(row@.take(j + 1) =~= row@.take(j as int).push(row@[j as int]));
                }
                j += 1;
            }
            proof {
                assert(row@.take(row@.len() as int) =~= row@);
                let longer = drawn.push(row@);
                assert(longer.drop_last() =~= drawn);
                drawn = longer;
            }
            i += 1;
        }
        proof {
            assert forall|a: int| 0 <= a < drawn.len() implies (#[trigger] drawn[a]).len()
                == dimension by {
                assert(is_draw(self@, drawn[a]));
            }
            lemma_rows_of_flatten(drawn, dimension as int);
        }
        match SampleMatrix::from_cells(sample_size, dimension, cells) {
            Some(m) => Ok(m),
            None => Err(CeError::InvalidArgument { argument: Argument::SampleSize }),
        }
    }

    /// Refits the model to the elite candidates, the rows of `best_samples`:
    /// each parameter becomes the share of 1s in its column. The model stays
    /// as it was where there is no row, where the rows have not one cell per
    /// parameter, where a cell is neither 0 nor 1, and where there are more
    /// rows than a `u32` counts.
    pub fn update(&mut self, best_samples: SampleMatrix) -> (done: Result<(), CeError>)
        ensures
            done is Ok <==> is_elite_set(best_samples@, best_samples.width(), old(self)@.len()),
            done is Ok ==> final(self)@ == column_means(best_samples@, old(self)@.len()),
            done matches Err(error) ==> final(self)@ == old(self)@ && error == (
            CeError::InvalidArgument { argument: Argument::EliteSet }),
    {
        let count = best_samples.nrows();
        let width = best_samples.ncols();
        if count == 0 || count > u32::MAX as usize || width != self.parameters.len()
            || !best_samples.is_binary() {
            return Err(CeError::InvalidArgument { argument: Argument::EliteSet });
        }
        let ones = best_samples.column_counts();
        let mut parameters: Vec<Probability> = Vec::new();
        let mut j: usize = 0;
        while j < width
            invariant
                j <= width,
                width == ones@.len(),
                0 < count <= u32::MAX,
                count == best_samples@.len(),
                forall|k: int| 0 <= k < ones@.len() ==> #[trigger] ones@[k] == column_sum(best_samples@, k),
                forall|k: int| 0 <= k < ones@.len() ==> #[trigger] ones@[k] <= best_samples@.len(),
                parameters@ == column_means(best_samples@, j as nat),
                forall|k: int| 0 <= k < j ==> (#[trigger] parameters@[k]).wf(),
            decreases width - j,
        {
            parameters.push(Probability { numerator: ones[j], denominator: count as u32 });
            proof {
                assert(parameters@ =~= column_means(best_samples@, (j + 1) as nat));
            }
            j += 1;
        }
        self.parameters = parameters;
        Ok(())
    }

    /// Whether every parameter is within one part in `SETTLED_WITHIN` of 0 or
    /// of 1, so that further draws hardly differ.
    pub fn converged(&self) -> (settled: bool)
        ensures
            settled == forall|k: int| 0 <= k < self@.len() ==> (#[trigger] self@[k]).settled(),
    {
        proof {
            use_type_invariant(self);
        }
        let mut k: usize = 0;
        while k < self.parameters.len()
            invariant
                k <= self.parameters@.len(),
                forall|j: int|
                    0 <= j < self.parameters@.len() ==> (#[trigger] self.parameters@[j]).wf(),
                forall|j: int| 0 <= j < k ==> (#[trigger] self.parameters@[j]).settled(),
            decreases self.parameters.len() - k,
        {
            if !self.parameters[k].is_settled() {
                assert(!self@[k as int].settled());
                return false;
            }
            k += 1;
        }
        true
    }
}

} // verus!
