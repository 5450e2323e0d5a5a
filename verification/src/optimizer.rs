//! The cross-entropy search: draw a batch of candidates, value each, keep the
//! best candidate seen, refit the model to the elite of the batch, and repeat.

use vstd::prelude::*;
use rand::rngs::StdRng;
use crate::bernoulli::{column_means, is_draw, is_elite_set, BernoulliProduct, Probability};
use crate::error::{Argument, CeError};
use crate::item::bare;
use crate::knapsack::{
    best_value, has_free_value, is_optimal_value, is_packing, lemma_nothing_to_pack,
    packing_value, packing_weight,
};
use crate::matrix::{all_binary, all_of_width, rows_view, shape_holds, SampleMatrix};
use crate::selection::{
    as_ints, elite_count, elite_of, elite_rows, leader, leader_of, lemma_elite_not_empty,
    lemma_elite_of_batch, lemma_leader, spec_elite_count, Quantile,
};
use crate::setups::KnapsackWithSetups;

verus! {

/// The selection that a row of 0s and 1s stands for.
pub open spec fn candidate(row: Seq<u32>) -> Seq<bool> {
    Seq::new(row.len(), |k: int| row[k] != 0)
}

/// The instance is well formed, and none of its item types weighs nothing and
/// is worth something.
pub open spec fn sound(instance: KnapsackWithSetups) -> bool {
    instance.wf() && !has_free_value(bare(instance.items@))
}

/// What the candidate of `row` is worth on `instance`.
pub open spec fn row_value(instance: KnapsackWithSetups, row: Seq<u32>) -> int {
    best_value(instance.restricted(candidate(row)), instance.capacity as int)
}

/// What the candidates of `batch` are worth on `instance`, row by row.
pub open spec fn batch_values(instance: KnapsackWithSetups, batch: Seq<Seq<u32>>) -> Seq<int> {
    Seq::new(batch.len(), |i: int| row_value(instance, batch[i]))
}

/// A selection and what it is worth.
pub struct Best {
    pub selection: Seq<bool>,
    pub value: int,
}

/// The best candidate seen once `batch` has been valued: the first candidate
/// of the highest value in the batch if that is worth more than `held`, else
/// `held`.
pub open spec fn next_best(instance: KnapsackWithSetups, held: Best, batch: Seq<Seq<u32>>) -> Best {
    let values = batch_values(instance, batch);
    let first = leader(values);
    if values[first] > held.value {
        Best { selection: candidate(batch[first]), value: values[first] }
    } else {
        held
    }
}

/// The parameters to which the model is refit on `batch`: the share of 1s in
/// each column of its elite rows.
pub open spec fn next_parameters(
    instance: KnapsackWithSetups,
    quantile: Quantile,
    batch: Seq<Seq<u32>>,
) -> Seq<Probability> {
    column_means(
        elite_rows(
            batch,
            batch_values(instance, batch),
            spec_elite_count(quantile, batch.len()) as int,
        ),
        instance.items@.len(),
    )
}

/// What a search holds between two iterations: the parameters of its model,
/// the best candidate seen, and the iterations that it may still take.
pub struct SearchState {
    pub parameters: Seq<Probability>,
    pub best: Best,
    pub iterations_left: nat,
}

/// The state in which a search for `dimension` item types starts: every
/// parameter is one half, and the best candidate selects nothing and is worth
/// nothing.
pub open spec fn first_state(dimension: nat, max_iterations: nat) -> SearchState {
    SearchState {
        parameters: Seq::new(dimension, |k: int| Probability { numerator: 1, denominator: 2 }),
        best: Best { selection: Seq::new(dimension, |k: int| false), value: 0 },
        iterations_left: max_iterations,
    }
}

/// The search is over in this state: the iterations are used up, or every
/// parameter has settled.
pub open spec fn state_done(state: SearchState) -> bool {
    state.iterations_left == 0 || forall|k: int|
        0 <= k < state.parameters.len() ==> (#[trigger] state.parameters[k]).settled()
}

/// The state after one iteration on `batch`.
pub open spec fn next_state(
    instance: KnapsackWithSetups,
    quantile: Quantile,
    state: SearchState,
    batch: Seq<Seq<u32>>,
) -> SearchState {
    SearchState {
        parameters: next_parameters(instance, quantile, batch),
        best: next_best(instance, state.best, batch),
        iterations_left: (state.iterations_left - 1) as nat,
    }
}

/// The state after one iteration on each of `batches`, in their order.
pub open spec fn state_after(
    instance: KnapsackWithSetups,
    quantile: Quantile,
    start: SearchState,
    batches: Seq<Seq<Seq<u32>>>,
) -> SearchState
    decreases batches.len(),
{
    if batches.len() == 0 {
        start
    } else {
        next_state(
            instance,
            quantile,
            state_after(instance, quantile, start, batches.drop_last()),
            batches.last(),
        )
    }
}

/// `batch` holds `sample_size` candidates that can be drawn from the
/// distributions `parameters`.
pub open spec fn is_batch_of(parameters: Seq<Probability>, sample_size: nat, batch: Seq<Seq<u32>>) -> bool {
    &&& batch.len() == sample_size
    &&& forall|i: int| 0 <= i < batch.len() ==> is_draw(parameters, #[trigger] batch[i])
}

/// `batches` can be the batches of a search from `start`: each is drawn from
/// the model as the batches before it have left it, and none is drawn once
/// the search is over.
pub open spec fn is_run(
    instance: KnapsackWithSetups,
    quantile: Quantile,
    sample_size: nat,
    start: SearchState,
    batches: Seq<Seq<Seq<u32>>>,
) -> bool {
    forall|t: int|
        0 <= t < batches.len() ==> {
            let state = state_after(instance, quantile, start, #[trigger] batches.take(t));
            !state_done(state) && is_batch_of(state.parameters, sample_size, batches[t])
        }
}

/// The best candidate seen is never worth less after an iteration than
/// before it.
pub proof fn lemma_best_never_falls(
    instance: KnapsackWithSetups,
    quantile: Quantile,
    state: SearchState,
    batch: Seq<Seq<u32>>,
)
    ensures
        next_state(instance, quantile, state, batch).best.value >= state.best.value,
{
}

/// Along a search, the best candidate seen after some of the batches is
/// worth no more than the best candidate seen after all of them.
pub proof fn lemma_best_grows_along_run(
    instance: KnapsackWithSetups,
    quantile: Quantile,
    start: SearchState,
    batches: Seq<Seq<Seq<u32>>>,
    upto: int,
)
    requires
        0 <= upto <= batches.len(),
    ensures
        state_after(instance, quantile, start, batches.take(upto)).best.value <= state_after(
            instance,
            quantile,
            start,
            batches,
        ).best.value,
    decreases batches.len(),
{
    if upto < batches.len() {
        let shorter = batches.drop_last();
        assert(shorter.take(upto) =~= batches.take(upto));
        lemma_best_grows_along_run(instance, quantile, start, shorter, upto);
    } else {
        assert(batches.take(upto) =~= batches);
    }
}

/// After the batches of a search, the best candidate seen is worth no less
/// than any candidate of any of the batches.
pub proof fn lemma_best_is_best_seen(
    instance: KnapsackWithSetups,
    quantile: Quantile,
    start: SearchState,
    batches: Seq<Seq<Seq<u32>>>,
    t: int,
    i: int,
)
    requires
        0 <= t < batches.len(),
        0 <= i < batches[t].len(),
    ensures
        state_after(instance, quantile, start, batches).best.value >= row_value(
            instance,
            batches[t][i],
        ),
{
    let upto = batches.take(t + 1);
    assert(upto.drop_last() =~= batches.take(t));
    assert(upto.last() == batches[t]);
    let values = batch_values(instance, batches[t]);
    lemma_leader(values, values.len() as int);
    assert(values[i] <= values[leader(values)]);
    lemma_best_grows_along_run(instance, quantile, start, batches, t + 1);
}

/// After the batches of a search, the best candidate seen is the one that
/// the search started with, or it is a candidate of one of the batches and
/// worth what that candidate is worth.
pub proof fn lemma_best_was_seen(
    instance: KnapsackWithSetups,
    quantile: Quantile,
    start: SearchState,
    batches: Seq<Seq<Seq<u32>>>,
)
    requires
        forall|t: int| 0 <= t < batches.len() ==> (#[trigger] batches[t]).len() >= 1,
    ensures
        ({
            let best = state_after(instance, quantile, start, batches).best;
            best == start.best || exists|t: int, i: int|
                {
                    &&& 0 <= t < batches.len()
                    &&& 0 <= i < batches[t].len()
                    &&& best.selection == candidate(#[trigger] batches[t][i])
                    &&& best.value == row_value(instance, batches[t][i])
                }
        }),
    decreases batches.len(),
{
    if batches.len() > 0 {
        let shorter = batches.drop_last();
        let last = batches.len() - 1;
        assert forall|t: int| 0 <= t < shorter.len() implies (#[trigger] shorter[t]).len() >= 1 by {
            assert(shorter[t] == batches[t]);
        }
        lemma_best_was_seen(instance, quantile, start, shorter);
        let before = state_after(instance, quantile, start, shorter).best;
        let best = state_after(instance, quantile, start, batches).best;
        let values = batch_values(instance, batches[last]);
        lemma_leader(values, values.len() as int);
        if best == before {
            if before != start.best {
                let (t, i) = choose|t: int, i: int|
                    {
                        &&& 0 <= t < shorter.len()
                        &&& 0 <= i < shorter[t].len()
                        &&& before.selection == candidate(#[trigger] shorter[t][i])
                        &&& before.value == row_value(instance, shorter[t][i])
                    };
                assert(shorter[t] == batches[t]);
                assert(best.selection == candidate(batches[t][i]));
            }
        } else {
            let first = leader(values);
            assert(best.selection == candidate(batches[last][first]));
            assert(best.value == row_value(instance, batches[last][first]));
        }
    }
}

/// Two searches on one instance with one quantile that start alike and draw
/// the same batches end alike: the draws are all that a search leaves open.
pub proof fn lemma_same_draws_same_end(
    instance: KnapsackWithSetups,
    quantile: Quantile,
    start: SearchState,
    first: Seq<Seq<Seq<u32>>>,
    second: Seq<Seq<Seq<u32>>>,
)
    requires
        first.len() == second.len(),
        forall|t: int| 0 <= t < first.len() ==> #[trigger] first[t] == second[t],
    ensures
        state_after(instance, quantile, start, first) == state_after(
            instance,
            quantile,
            start,
            second,
        ),
{
    assert(first =~= second);
}

/// The item types that a candidate leaves are item types of the instance.
pub proof fn lemma_restricted_is_sound(instance: KnapsackWithSetups, chosen: Seq<bool>, upto: nat)
    requires
        !has_free_value(bare(instance.items@)),
        upto <= instance.items@.len(),
    ensures
        !has_free_value(instance.restricted_upto(chosen, upto)),
    decreases upto,
{
    if upto > 0 {
        lemma_restricted_is_sound(instance, chosen, (upto - 1) as nat);
        let left = instance.restricted_upto(chosen, upto);
        let before = instance.restricted_upto(chosen, (upto - 1) as nat);
        if has_free_value(left) {
            let k = choose|k: int|
                0 <= k < left.len() && (#[trigger] left[k]).weight == 0 && left[k].value > 0;
            if k < before.len() {
                assert(before[k] == left[k]);
            } else {
                assert(left[k] == bare(instance.items@)[upto - 1]);
            }
        }
    }
}

/// A candidate that selects nothing leaves nothing.
pub proof fn lemma_nothing_selected(instance: KnapsackWithSetups, chosen: Seq<bool>, upto: nat)
    requires
        forall|k: int| 0 <= k < upto ==> !#[trigger] chosen[k],
    ensures
        instance.restricted_upto(chosen, upto).len() == 0,
    decreases upto,
{
    if upto > 0 {
        lemma_nothing_selected(instance, chosen, (upto - 1) as nat);
        assert(!chosen[upto - 1]);
    }
}

/// The selection that a row of 0s and 1s stands for.
pub fn candidate_of(row: &Vec<u32>) -> (chosen: Vec<bool>)
    ensures
        chosen@ == candidate(row@),
{
    let mut chosen: Vec<bool> = Vec::new();
    let mut k: usize = 0;
    while k < row.len()
        invariant
            k <= row@.len(),
            chosen@ == candidate(row@.take(k as int)),
        decreases row.len() - k,
    {
        chosen.push(row[k] != 0);
        proof {
            assert(chosen@ =~= candidate(row@.take(k + 1)));
        }
        k += 1;
    }
    proof {
        assert(row@.take(k as int) =~= row@);
    }
    chosen
}

/// Whether none of the item types weighs nothing and is worth something.
pub fn is_sound(instance: &KnapsackWithSetups) -> (fine: bool)
    requires
        instance.wf(),
    ensures
        fine == sound(*instance),
{
    let mut k: usize = 0;
    while k < instance.items.len()
        invariant
            k <= instance.items@.len(),
            forall|j: int|
                0 <= j < k ==> !((#[trigger] bare(instance.items@)[j]).weight == 0 && bare(
                    instance.items@,
                )[j].value > 0),
        decreases instance.items.len() - k,
    {
        if instance.items[k].item.weight == 0 && instance.items[k].item.value > 0 {
            assert(bare(instance.items@)[k as int].weight == 0);
            return false;
        }
        k += 1;
    }
    true
}

/// What each candidate of `batch` is worth on `instance`. A batch that has
/// not one column per item type is refused.
pub fn evaluate_batch(instance: &KnapsackWithSetups, batch: &SampleMatrix) -> (worth: Result<
    Vec<u128>,
    CeError,
>)
    requires
        sound(*instance),
    ensures
        worth is Ok <==> batch@.len() == 0 || batch.width() == instance.items@.len(),
        worth matches Ok(values) ==> {
            &&& values@.len() == batch@.len()
            &&& as_ints(values@) == batch_values(*instance, batch@)
            &&& forall|i: int|
                0 <= i < batch@.len() ==> is_optimal_value(
                    instance.restricted(candidate(#[trigger] batch@[i])),
                    instance.capacity as int,
                    values@[i] as int,
                )
        },
        worth matches Err(error) ==> error == (CeError::InvalidArgument {
            argument: Argument::Batch,
        }),
{
    let rows = batch.nrows();
    let width = batch.ncols();
    if rows > 0 && width != instance.num_items() {
        return Err(CeError::InvalidArgument { argument: Argument::Batch });
    }
    let mut values: Vec<u128> = Vec::new();
    let mut i: usize = 0;
    while i < rows
        invariant
            i <= rows,
            rows == batch@.len(),
            sound(*instance),
            all_of_width(batch@, instance.items@.len() as int),
            values@.len() == i,
            forall|a: int|
                0 <= a < i ==> #[trigger] values@[a] == row_value(*instance, batch@[a]),
            forall|a: int|
                0 <= a < i ==> is_optimal_value(
                    instance.restricted(candidate(#[trigger] batch@[a])),
                    instance.capacity as int,
                    values@[a] as int,
                ),
        decreases rows - i,
    {
        let row = match batch.row(i) {
            Some(row) => row,
            None => {
                return Err(CeError::InvalidArgument { argument: Argument::Batch });
            },
        };
        let chosen = candidate_of(&row);
        proof {
            lemma_restricted_is_sound(*instance, chosen@, instance.items@.len());
        }
        match instance.evaluate(chosen) {
            Ok(value) => {
                values.push(value);
            },
            Err(_) => {
                return Err(CeError::InvalidArgument { argument: Argument::Batch });
            },
        }
        i += 1;
    }
    proof {
        assert(as_ints(values@) =~= batch_values(*instance, batch@));
    }
    Ok(values)
}

/// The best candidate seen so far and what it is worth.
#[derive(Debug)]
pub struct Incumbent {
    pub selection: Vec<bool>,
    pub value: u128,
}

/// An incumbent is seen as its selection and its value.
impl View for Incumbent {
    type V = Best;

    open spec fn view(&self) -> Best {
        Best { selection: self.selection@, value: self.value as int }
    }
}

/// The argument, if any, for which a search cannot be set up, the first of:
/// a sample size of zero, above what a `u32` counts or above what the machine
/// holds in a matrix; a quantile outside `(0, 1)`; no iteration; an item type
/// that weighs nothing and is worth something.
pub open spec fn refused_argument(
    instance: KnapsackWithSetups,
    sample_size: usize,
    quantile: Quantile,
    max_iterations: usize,
) -> Option<Argument> {
    if sample_size == 0 || sample_size > u32::MAX || !shape_holds(
        sample_size as int,
        instance.items@.len() as int,
        sample_size * instance.items@.len(),
    ) {
        Some(Argument::SampleSize)
    } else if !quantile.valid() {
        Some(Argument::Quantile)
    } else if max_iterations == 0 {
        Some(Argument::Iterations)
    } else if has_free_value(bare(instance.items@)) {
        Some(Argument::Instance)
    } else {
        None
    }
}

/// A cross-entropy search on one instance.
#[derive(Debug)]
pub struct CrossEntropy {
    pub instance: KnapsackWithSetups,
    pub model: BernoulliProduct,
    pub incumbent: Incumbent,
    pub quantile: Quantile,
    pub sample_size: usize,
    pub iterations_left: usize,
}

/// A search is seen as what changes from one iteration to the next.
impl View for CrossEntropy {
    type V = SearchState;

    open spec fn view(&self) -> SearchState {
        SearchState {
            parameters: self.model@,
            best: self.incumbent@,
            iterations_left: self.iterations_left as nat,
        }
    }
}

impl CrossEntropy {
    /// The search is set up as `new` would, and its incumbent is a candidate
    /// of the instance that is worth what the search says: some packing of
    /// the item types that it leaves reaches that value within the capacity,
    /// and none exceeds it.
    pub open spec fn wf(&self) -> bool {
        &&& sound(self.instance)
        &&& self.model@.len() == self.instance.items@.len()
        &&& self.quantile.valid()
        &&& 1 <= self.sample_size <= u32::MAX
        &&& shape_holds(
            self.sample_size as int,
            self.instance.items@.len() as int,
            self.sample_size * self.instance.items@.len(),
        )
        &&& self.incumbent.selection@.len() == self.instance.items@.len()
        &&& is_optimal_value(
            self.instance.restricted(self.incumbent.selection@),
            self.instance.capacity as int,
            self.incumbent.value as int,
        )
    }

    /// `batch` is a batch of this search: as many candidates as the sample
    /// size asks for, one cell of 0 or 1 per item type.
    pub open spec fn accepts(&self, batch: SampleMatrix) -> bool {
        &&& batch@.len() == self.sample_size
        &&& batch.width() == self.instance.items@.len()
        &&& all_binary(batch@)
    }

    /// The search is over: the iterations are used up, or every parameter of
    /// the model has settled.
    pub open spec fn done(&self) -> bool {
        state_done(self@)
    }

    /// The incumbent of a search can be packed: some packing of the item
    /// types that its selection leaves of the instance is worth what the
    /// incumbent is worth and weighs no more than the capacity.
    pub proof fn lemma_incumbent_is_packed(&self)
        requires
            self.wf(),
        ensures
            exists|picks: Seq<int>|
                {
                    &&& #[trigger] is_packing(
                        self.instance.restricted(self.incumbent.selection@),
                        self.instance.capacity as int,
                        picks,
                    )
                    &&& packing_weight(self.instance.restricted(self.incumbent.selection@), picks)
                        <= self.instance.capacity
                    &&& packing_value(self.instance.restricted(self.incumbent.selection@), picks)
                        == self.incumbent.value
                },
    {
        let left = self.instance.restricted(self.incumbent.selection@);
        let picks = choose|picks: Seq<int>| #[trigger]
            is_packing(left, self.instance.capacity as int, picks) && packing_value(left, picks)
                == self.incumbent.value;
        assert(is_packing(left, self.instance.capacity as int, picks));
    }

    /// Sets up a search: a model that selects every item type with
    /// probability one half, and an incumbent that selects nothing and is
    /// worth nothing.
    pub fn new(
        instance: KnapsackWithSetups,
        sample_size: usize,
        quantile: Quantile,
        max_iterations: usize,
    ) -> (search: Result<CrossEntropy, CeError>)
        requires
            instance.wf(),
        ensures
            match refused_argument(instance, sample_size, quantile, max_iterations) {
                Some(argument) => search == Err::<CrossEntropy, CeError>(
                    CeError::InvalidArgument { argument },
                ),
                None => search matches Ok(made) && {
                    &&& made.wf()
                    &&& made.instance == instance
                    &&& made.quantile == quantile
                    &&& made.sample_size == sample_size
                    &&& made@ == first_state(instance.items@.len(), max_iterations as nat)
                },
            },
    {
        let dimension = instance.num_items();
        if sample_size == 0 || sample_size > u32::MAX as usize || !SampleMatrix::shape_fits(
            sample_size,
            dimension,
        ) {
            return Err(CeError::InvalidArgument { argument: Argument::SampleSize });
        }
        if !quantile.is_valid() {
            return Err(CeError::InvalidArgument { argument: Argument::Quantile });
        }
        if max_iterations == 0 {
            return Err(CeError::InvalidArgument { argument: Argument::Iterations });
        }
        if !is_sound(&instance) {
            return Err(CeError::InvalidArgument { argument: Argument::Instance });
        }
        let mut selection: Vec<bool> = Vec::new();
        let mut k: usize = 0;
        while k < dimension
            invariant
                k <= dimension,
                selection@.len() == k,
                forall|j: int| 0 <= j < k ==> !#[trigger] selection@[j],
            decreases dimension - k,
        {
            selection.push(false);
            k += 1;
        }
        let model = BernoulliProduct::new(dimension);
        proof {
            lemma_nothing_selected(instance, selection@, dimension as nat);
            lemma_nothing_to_pack(instance.restricted(selection@), instance.capacity as int);
            let first = first_state(dimension as nat, max_iterations as nat);
            assert(model@ =~= first.parameters);
            assert(selection@ =~= first.best.selection);
        }
        Ok(
            CrossEntropy {
                instance,
                model,
                incumbent: Incumbent { selection, value: 0 },
                quantile,
                sample_size,
                iterations_left: max_iterations,
            },
        )
    }

    /// Whether the search is over.
    pub fn finished(&self) -> (over: bool)
        ensures
            over == self.done(),
    {
        if self.iterations_left == 0 {
            return true;
        }
        let settled = self.model.converged();
        proof {
            assert(self@.parameters == self.model@);
            assert(self@.iterations_left != 0);
        }
        settled
    }

    /// One iteration on a batch that has been drawn: values its candidates,
    /// keeps the first of the highest value as incumbent if it is worth more
    /// than the incumbent, and refits the model to the elite rows. A batch
    /// that is not one of this search is refused, and so is any batch once
    /// the iterations are used up; the search then stays as it was.
    pub fn step(&mut self, batch: &SampleMatrix) -> (taken: Result<(), CeError>)
        requires
            old(self).wf(),
        ensures
            final(self).wf(),
            final(self).instance == old(self).instance,
            final(self).quantile == old(self).quantile,
            final(self).sample_size == old(self).sample_size,
            final(self).incumbent.value >= old(self).incumbent.value,
            taken is Ok <==> old(self).iterations_left > 0 && old(self).accepts(*batch),
            taken is Ok ==> final(self)@ == next_state(
                old(self).instance,
                old(self).quantile,
                old(self)@,
                batch@,
            ),
            taken matches Err(error) ==> {
                &&& final(self)@ == old(self)@
                &&& error == (CeError::InvalidArgument {
                    argument: if old(self).iterations_left == 0 {
                        Argument::Iterations
                    } else {
                        Argument::Batch
                    },
                })
            },
    {
        if self.iterations_left == 0 {
            return Err(CeError::InvalidArgument { argument: Argument::Iterations });
        }
        let refused = Err(CeError::InvalidArgument { argument: Argument::Batch });
        let dimension = self.instance.num_items();
        if batch.nrows() != self.sample_size || batch.ncols() != dimension || !batch.is_binary() {
            return refused;
        }
        let values = match evaluate_batch(&self.instance, batch) {
            Ok(values) => values,
            Err(_) => {
                return refused;
            },
        };
        let ghost worth = batch_values(self.instance, batch@);
        let first = leader_of(&values);
        let count = elite_count(&self.quantile, self.sample_size);
        let elite = elite_of(batch, &values, count);
        proof {
            lemma_elite_not_empty(batch@, worth, count as int);
            lemma_elite_of_batch(
                batch@,
                worth,
                count as int,
                batch@.len() as int,
                dimension as int,
            );
            let kept = rows_view(elite@);
            assert(kept.len() >= 1);
            assert(kept[0].len() == dimension);
            assert(shape_holds(kept.len() as int, dimension as int, kept.len() * dimension))
                by (nonlinear_arith)
                requires
                    1 <= kept.len() <= self.sample_size,
                    dimension >= 0,
                    shape_holds(
                        self.sample_size as int,
                        dimension as int,
                        self.sample_size * dimension,
                    ),
            ;
        }
        let refit = match SampleMatrix::from_rows(&elite) {
            Some(refit) => refit,
            None => {
                return refused;
            },
        };
        match self.model.update(refit) {
            Ok(()) => {},
            Err(_) => {
                return refused;
            },
        }
        if values[first] > self.incumbent.value {
            let row = match batch.row(first) {
                Some(row) => row,
                None => {
                    return refused;
                },
            };
            self.incumbent = Incumbent { selection: candidate_of(&row), value: values[first] };
        }
        self.iterations_left = self.iterations_left - 1;
        Ok(())
    }

    /// Runs the search to its end: while it is not over, draws a batch from
    /// the model and takes one step on it. Which batches are drawn is up to
    /// the random source; the search ends in the state that those batches
    /// lead to.
    pub fn run(&mut self, rng: &mut StdRng)
        requires
            old(self).wf(),
        ensures
            final(self).wf(),
            final(self).done(),
            final(self).instance == old(self).instance,
            final(self).quantile == old(self).quantile,
            final(self).sample_size == old(self).sample_size,
            final(self).incumbent.value >= old(self).incumbent.value,
            exists|batches: Seq<Seq<Seq<u32>>>|
                {
                    &&& #[trigger] is_run(
                        old(self).instance,
                        old(self).quantile,
                        old(self).sample_size as nat,
                        old(self)@,
                        batches,
                    )
                    &&& final(self)@ == state_after(
                        old(self).instance,
                        old(self).quantile,
                        old(self)@,
                        batches,
                    )
                },
    {
        let ghost start = self@;
        let ghost mut drawn: Seq<Seq<Seq<u32>>> = Seq::empty();
        while !self.finished()
            invariant
                self.wf(),
                self.instance == old(self).instance,
                self.quantile == old(self).quantile,
                self.sample_size == old(self).sample_size,
                self.incumbent.value >= old(self).incumbent.value,
                start == old(self)@,
                is_run(self.instance, self.quantile, self.sample_size as nat, start, drawn),
                self@ == state_after(self.instance, self.quantile, start, drawn),
            ensures
                self.done(),
            decreases self.iterations_left,
        {
            let ghost before = self@;
            let batch = match self.model.sample_matrix(self.sample_size, rng) {
                Ok(batch) => batch,
                Err(_) => {
                    break ;
                },
            };
            proof {
                assert forall|i: int, j: int|
                    0 <= i < batch@.len() && 0 <= j < batch@[i].len() implies #[trigger] batch@[i][j]
                    <= 1 by {
                    assert(is_draw(self.model@, batch@[i]));
                }
            }
            match self.step(&batch) {
                Ok(()) => {},
                Err(_) => {
                    break ;
                },
            }
            proof {
                let longer = drawn.push(batch@);
                assert(longer.drop_last() =~= drawn);
                assert forall|t: int| 0 <= t < longer.len() implies {
                    let state = state_after(
                        self.instance,
                        self.quantile,
                        start,
                        #[trigger] longer.take(t),
                    );
                    !state_done(state) && is_batch_of(
                        state.parameters,
                        self.sample_size as nat,
                        longer[t],
                    )
                } by {
                    if t < drawn.len() {
                        assert(longer.take(t) =~= drawn.take(t));
                    } else {
                        assert(longer.take(t) =~= drawn);
                    }
                }
                drawn = longer;
            }
        }
    }
}

/// Searches `instance` for a selection of item types of high value: up to
/// `max_iterations` iterations, each on `sample_size` candidates drawn from
/// `rng`, of which the share `quantile` refits the model. Returns the best
/// candidate seen.
pub fn optimize(
    instance: KnapsackWithSetups,
    sample_size: usize,
    quantile: Quantile,
    max_iterations: usize,
    rng: &mut StdRng,
) -> (found: Result<Incumbent, CeError>)
    requires
        instance.wf(),
    ensures
        match refused_argument(instance, sample_size, quantile, max_iterations) {
            Some(argument) => found == Err::<Incumbent, CeError>(
                CeError::InvalidArgument { argument },
            ),
            None => found matches Ok(best) && {
                &&& best.selection@.len() == instance.items@.len()
                &&& is_optimal_value(
                    instance.restricted(best.selection@),
                    instance.capacity as int,
                    best.value as int,
                )
                &&& exists|batches: Seq<Seq<Seq<u32>>>|
                    {
                        &&& #[trigger] is_run(
                            instance,
                            quantile,
                            sample_size as nat,
                            first_state(instance.items@.len(), max_iterations as nat),
                            batches,
                        )
                        &&& state_done(
                            state_after(
                                instance,
                                quantile,
                                first_state(instance.items@.len(), max_iterations as nat),
                                batches,
                            ),
                        )
                        &&& best@ == state_after(
                            instance,
                            quantile,
                            first_state(instance.items@.len(), max_iterations as nat),
                            batches,
                        ).best
                    }
            },
        },
{
    match CrossEntropy::new(instance, sample_size, quantile, max_iterations) {
        Err(error) => Err(error),
        Ok(search) => {
            let mut search = search;
            search.run(rng);
            Ok(search.incumbent)
        },
    }
}

} // verus!
