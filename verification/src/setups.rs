//! The knapsack with setups: item types that cost something once they are used
//! at all, the fewest units that repay that cost, and the restriction of an
//! instance to the item types that a candidate selects.

use vstd::prelude::*;
use vstd::arithmetic::div_mod::{lemma_fundamental_div_mod, lemma_mod_pos_bound};
use vstd::arithmetic::mul::lemma_mul_inequality;
use crate::error::{Argument, CeError};
use crate::item::{Item, ItemWithSetup};
use crate::knapsack::{
    best_value, has_free_value, is_optimal_value, lemma_arranged_free_value,
    lemma_arranged_optimal, lemma_best_value, UnboundedKnapsack,
};
use crate::ranking::{arranged, is_density_order};

verus! {

/// `count` units of the item type are worth more than its setup costs.
pub open spec fn amortizes(it: ItemWithSetup, count: int) -> bool {
    count * it.item.value > it.setup_cost
}

/// `count` units of the item type weigh no more than `capacity`.
pub open spec fn count_fits(it: ItemWithSetup, count: int, capacity: int) -> bool {
    it.item.weight * count <= capacity
}

/// The fewest units that amortize the setup cost of an item type that is
/// worth something.
pub open spec fn least_count(it: ItemWithSetup) -> int {
    it.setup_cost / it.item.value + 1
}

/// The fewest units of the item type that amortize its setup cost, where that
/// many are a count the machine can hold and fit within `capacity`.
pub open spec fn spec_lower_bound(it: ItemWithSetup, capacity: usize) -> Option<usize> {
    if it.item.value > 0 && least_count(it) <= usize::MAX && count_fits(
        it,
        least_count(it),
        capacity as int,
    ) {
        Some(least_count(it) as usize)
    } else {
        None
    }
}

/// `least_count` is the least count that amortizes the setup cost.
pub proof fn lemma_least_count(it: ItemWithSetup)
    requires
        it.item.value > 0,
    ensures
        least_count(it) >= 1,
        amortizes(it, least_count(it)),
        forall|count: int| count < least_count(it) ==> !#[trigger] amortizes(it, count),
{
    let value = it.item.value as int;
    let cost = it.setup_cost as int;
    let quotient = cost / value;
    lemma_fundamental_div_mod(cost, value);
    lemma_mod_pos_bound(cost, value);
    assert(cost == value * quotient + cost % value);
    assert(quotient >= 0) by (nonlinear_arith)
        requires
            cost == value * quotient + cost % value,
            0 <= cost % value < value,
            cost >= 0,
            value > 0,
    ;
    assert((quotient + 1) * value == value * quotient + value) by (nonlinear_arith);
    assert forall|count: int| count < least_count(it) implies !#[trigger] amortizes(it, count) by {
        lemma_mul_inequality(count, quotient, value);
        assert(quotient * value == value * quotient) by (nonlinear_arith);
    }
}

/// A lower bound is missing exactly when no count of units that the machine
/// can hold both amortizes the setup cost and fits within the capacity.
/// Otherwise it is the least count that amortizes the setup cost, and that
/// count fits.
pub proof fn lemma_lower_bound_least(it: ItemWithSetup, capacity: usize)
    ensures
        spec_lower_bound(it, capacity) is None <==> forall|count: int|
            1 <= count <= usize::MAX ==> !(#[trigger] amortizes(it, count) && count_fits(
                it,
                count,
                capacity as int,
            )),
        spec_lower_bound(it, capacity) matches Some(bound) ==> {
            &&& bound >= 1
            &&& amortizes(it, bound as int)
            &&& count_fits(it, bound as int, capacity as int)
            &&& forall|count: int| 1 <= count < bound ==> !#[trigger] amortizes(it, count)
        },
{
    if it.item.value > 0 {
        lemma_least_count(it);
        let least = least_count(it);
        if spec_lower_bound(it, capacity) is None {
            assert forall|count: int| 1 <= count <= usize::MAX implies !(#[trigger] amortizes(
                it,
                count,
            ) && count_fits(it, count, capacity as int)) by {
                if amortizes(it, count) {
                    assert(least <= count);
                    lemma_mul_inequality(least, count, it.item.weight as int);
                    assert(it.item.weight * least == least * it.item.weight) by (nonlinear_arith);
                    assert(it.item.weight * count == count * it.item.weight) by (nonlinear_arith);
                }
            }
        } else {
            assert(amortizes(it, least) && count_fits(it, least, capacity as int));
        }
    } else {
        assert forall|count: int| 1 <= count <= usize::MAX implies !(#[trigger] amortizes(
            it,
            count,
        )) by {
            assert(count * 0 == 0) by (nonlinear_arith);
        }
    }
}

/// The fewest units of the item type that repay its setup cost, or `None`
/// where no count that the machine can hold repays it within `capacity`.
pub fn lower_bound(item_with_setup: &ItemWithSetup, capacity: usize) -> (bound: Option<usize>)
    ensures
        bound == spec_lower_bound(*item_with_setup, capacity),
        bound is None <==> forall|count: int|
            1 <= count <= usize::MAX ==> !(#[trigger] amortizes(*item_with_setup, count)
                && count_fits(*item_with_setup, count, capacity as int)),
        bound matches Some(least) ==> {
            &&& least >= 1
            &&& amortizes(*item_with_setup, least as int)
            &&& count_fits(*item_with_setup, least as int, capacity as int)
            &&& forall|count: int|
                1 <= count < least ==> !#[trigger] amortizes(*item_with_setup, count)
        },
{
    proof {
        lemma_lower_bound_least(*item_with_setup, capacity);
    }
    let value = item_with_setup.item.value;
    if value == 0 {
        return None;
    }
    let quotient = item_with_setup.setup_cost / value;
    if quotient == usize::MAX {
        return None;
    }
    let count = quotient + 1;
    match item_with_setup.item.weight.checked_mul(count) {
        Some(used) => {
            if used <= capacity {
                Some(count)
            } else {
                None
            }
        },
        None => None,
    }
}

/// A knapsack instance with setups: its item types, the capacity, and for
/// each item type the fewest units that repay its setup cost within the
/// capacity, if any count does.
#[derive(Debug)]
pub struct KnapsackWithSetups {
    pub items: Vec<ItemWithSetup>,
    pub lower_bounds: Vec<Option<usize>>,
    pub capacity: usize,
}

impl KnapsackWithSetups {
    /// Each item type has its lower bound beside it.
    pub open spec fn wf(&self) -> bool {
        &&& self.lower_bounds@.len() == self.items@.len()
        &&& forall|k: int|
            0 <= k < self.items@.len() ==> #[trigger] self.lower_bounds@[k] == spec_lower_bound(
                self.items@[k],
                self.capacity,
            )
    }

    /// The candidate selects item type `k`, and that item type can repay its
    /// setup cost within the capacity.
    pub open spec fn active(&self, chosen: Seq<bool>, k: int) -> bool {
        chosen[k] && self.lower_bounds@[k] is Some
    }

    /// The active item types among the first `upto`, in their order.
    pub open spec fn restricted_upto(&self, chosen: Seq<bool>, upto: nat) -> Seq<Item>
        decreases upto,
    {
        if upto == 0 {
            Seq::empty()
        } else {
            let before = self.restricted_upto(chosen, (upto - 1) as nat);
            if self.active(chosen, upto - 1) {
                before.push(self.items@[upto - 1].item)
            } else {
                before
            }
        }
    }

    /// The item types that the candidate `chosen` leaves of the instance.
    pub open spec fn restricted(&self, chosen: Seq<bool>) -> Seq<Item> {
        self.restricted_upto(chosen, self.items@.len())
    }

    /// Creates the instance and works out the lower bound of each item type.
    pub fn new(items: Vec<ItemWithSetup>, capacity: usize) -> (kps: KnapsackWithSetups)
        ensures
            kps.items@ == items@,
            kps.capacity == capacity,
            kps.wf(),
    {
        let mut lower_bounds: Vec<Option<usize>> = Vec::new();
        let mut k: usize = 0;
        while k < items.len()
            invariant
                k <= items.len(),
                lower_bounds@.len() == k,
                forall|j: int|
                    0 <= j < k ==> #[trigger] lower_bounds@[j] == spec_lower_bound(
                        items@[j],
                        capacity,
                    ),
            decreases items.len() - k,
        {
            lower_bounds.push(lower_bound(&items[k], capacity));
            k += 1;
        }
        KnapsackWithSetups { items, lower_bounds, capacity }
    }

    /// Whether each item type has its lower bound beside it.
    pub fn is_wf(&self) -> (fine: bool)
        ensures
            fine == self.wf(),
    {
        if self.lower_bounds.len() != self.items.len() {
            return false;
        }
        let mut k: usize = 0;
        while k < self.items.len()
            invariant
                k <= self.items@.len(),
                self.lower_bounds@.len() == self.items@.len(),
                forall|j: int|
                    0 <= j < k ==> #[trigger] self.lower_bounds@[j] == spec_lower_bound(
                        self.items@[j],
                        self.capacity,
                    ),
            decreases self.items.len() - k,
        {
            let bound = lower_bound(&self.items[k], self.capacity);
            let same = match (bound, self.lower_bounds[k]) {
                (Some(a), Some(b)) => a == b,
                (None, None) => true,
                _ => false,
            };
            if !same {
                assert(self.lower_bounds@[k as int] != spec_lower_bound(
                    self.items@[k as int],
                    self.capacity,
                ));
                return false;
            }
            k += 1;
        }
        true
    }

    /// The unbounded knapsack that is left when only the item types that the
    /// candidate selects may be used; of these, the ones that cannot repay
    /// their setup cost within the capacity are left out as well. `None` where
    /// the candidate has not one entry per item type.
    pub fn associated_ukp(&self, selected_items: Vec<bool>) -> (ukp: Option<UnboundedKnapsack>)
        requires
            self.wf(),
        ensures
            ukp is None <==> selected_items@.len() != self.items@.len(),
            ukp matches Some(knapsack) ==> {
                &&& knapsack.capacity == self.capacity
                &&& exists|order: Seq<usize>| #[trigger]
                    is_density_order(self.restricted(selected_items@), order) && knapsack.items@
                        == arranged(self.restricted(selected_items@), order)
            },
    {
        if selected_items.len() != self.items.len() {
            return None;
        }
        let mut kept: Vec<Item> = Vec::new();
        let mut k: usize = 0;
        while k < self.items.len()
            invariant
                k <= self.items.len(),
                self.wf(),
                selected_items@.len() == self.items@.len(),
                kept@ == self.restricted_upto(selected_items@, k as nat),
            decreases self.items.len() - k,
        {
            if selected_items[k] && self.lower_bounds[k].is_some() {
                kept.push(self.items[k].item);
            }
            k += 1;
        }
        let ghost left = kept@;
        let knapsack = UnboundedKnapsack::new(kept, self.capacity);
        proof {
            let order = choose|order: Seq<usize>| #[trigger]
                is_density_order(left, order) && knapsack.items@ == arranged(left, order);
            assert(is_density_order(self.restricted(selected_items@), order));
        }
        Some(knapsack)
    }

    /// What the candidate is worth: the value of the best packing of the
    /// item types that it leaves of the instance. A candidate that has not
    /// one entry per item type is refused, and so is one that leaves an item
    /// type that weighs nothing and is worth something.
    pub fn evaluate(&self, selected_items: Vec<bool>) -> (worth: Result<u128, CeError>)
        requires
            self.wf(),
        ensures
            worth is Ok <==> selected_items@.len() == self.items@.len() && !has_free_value(
                self.restricted(selected_items@),
            ),
            worth matches Ok(value) ==> is_optimal_value(
                self.restricted(selected_items@),
                self.capacity as int,
                value as int,
            ) && value == best_value(self.restricted(selected_items@), self.capacity as int),
            worth matches Err(error) ==> error == (CeError::InvalidArgument {
                argument: if selected_items@.len() != self.items@.len() {
                    Argument::Candidate
                } else {
                    Argument::Instance
                },
            }),
    {
        let ghost left = self.restricted(selected_items@);
        match self.associated_ukp(selected_items) {
            None => Err(CeError::InvalidArgument { argument: Argument::Candidate }),
            Some(knapsack) => {
                let worth = knapsack.solve();
                proof {
                    let order = choose|order: Seq<usize>| #[trigger]
                        is_density_order(left, order) && knapsack.items@ == arranged(left, order);
                    lemma_arranged_free_value(left, order);
                    if let Ok(value) = worth {
                        lemma_arranged_optimal(left, order, self.capacity as int, value as int);
                        lemma_best_value(left, self.capacity as int, value as int);
                    }
                }
                worth
            },
        }
    }

    /// The number of item types.
    pub fn num_items(&self) -> (n: usize)
        ensures
            n == self.items@.len(),
    {
        self.items.len()
    }
}

} // verus!
