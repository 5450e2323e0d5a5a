//! The unbounded knapsack: as many units of each item type as fit, for the most value.

use vstd::prelude::*;
use crate::error::{Argument, CeError};
use crate::item::Item;
use crate::ranking::{arranged, is_arrangement, is_density_order, sort_items};

verus! {

/// An unbounded knapsack instance: item types, each usable any number of
/// times, and the weight that a packing may reach.
#[derive(Debug)]
pub struct UnboundedKnapsack {
    pub items: Vec<Item>,
    pub capacity: usize,
}

/// The weight of a packing. A packing is a list of picks; each pick names an
/// item type by its position, and an item type may be picked many times.
pub open spec fn packing_weight(items: Seq<Item>, picks: Seq<int>) -> int
    decreases picks.len(),
{
    if picks.len() == 0 {
        0
    } else {
        packing_weight(items, picks.drop_last()) + items[picks.last()].weight
    }
}

/// The value of a packing.
pub open spec fn packing_value(items: Seq<Item>, picks: Seq<int>) -> int
    decreases picks.len(),
{
    if picks.len() == 0 {
        0
    } else {
        packing_value(items, picks.drop_last()) + items[picks.last()].value
    }
}

/// `picks` names item types of `items` only.
pub open spec fn picks_within(items: Seq<Item>, picks: Seq<int>) -> bool {
    forall|k: int| 0 <= k < picks.len() ==> 0 <= #[trigger] picks[k] < items.len()
}

/// `picks` is a packing of `items` that weighs no more than `capacity`.
pub open spec fn is_packing(items: Seq<Item>, capacity: int, picks: Seq<int>) -> bool {
    picks_within(items, picks) && packing_weight(items, picks) <= capacity
}

/// `value` is what the best packing within `capacity` is worth: some packing
/// reaches it and none exceeds it.
pub open spec fn is_optimal_value(items: Seq<Item>, capacity: int, value: int) -> bool {
    &&& exists|picks: Seq<int>| #[trigger]
        is_packing(items, capacity, picks) && packing_value(items, picks) == value
    &&& forall|picks: Seq<int>| #[trigger]
        is_packing(items, capacity, picks) ==> packing_value(items, picks) <= value
}

/// Some item type weighs nothing and is worth something, so that no packing
/// is best.
pub open spec fn has_free_value(items: Seq<Item>) -> bool {
    exists|k: int| 0 <= k < items.len() && (#[trigger] items[k]).weight == 0 && items[k].value > 0
}

/// The entry of the table for `capacity` once the first `k` item types have
/// been tried as the last pick.
spec fn table_upto(items: Seq<Item>, capacity: nat, k: nat) -> nat
    decreases capacity, k,
{
    if k == 0 {
        0
    } else {
        let before = table_upto(items, capacity, (k - 1) as nat);
        let last = items[k - 1];
        if 0 < last.weight <= capacity {
            let with_last = table_upto(items, (capacity - last.weight) as nat, items.len())
                + last.value as nat;
            if with_last > before {
                with_last
            } else {
                before
            }
        } else {
            before
        }
    }
}

/// The finished entry of the table for `capacity`.
spec fn table(items: Seq<Item>, capacity: nat) -> nat {
    table_upto(items, capacity, items.len())
}

/// No machine word is larger than this.
const WORD_MAX: u64 = 0xffff_ffff_ffff_ffff;

/// A packing neither weighs less than nothing nor is worth less.
proof fn lemma_packing_nonnegative(items: Seq<Item>, picks: Seq<int>)
    requires
        picks_within(items, picks),
    ensures
        packing_weight(items, picks) >= 0,
        packing_value(items, picks) >= 0,
    decreases picks.len(),
{
    if picks.len() > 0 {
        lemma_packing_nonnegative(items, picks.drop_last());
    }
}

/// A packing that reaches the table's entry.
proof fn table_witness(items: Seq<Item>, capacity: nat, k: nat) -> (picks: Seq<int>)
    requires
        k <= items.len(),
    ensures
        is_packing(items, capacity as int, picks),
        packing_value(items, picks) == table_upto(items, capacity, k),
    decreases capacity, k,
{
    if k == 0 {
        Seq::empty()
    } else {
        let before = table_witness(items, capacity, (k - 1) as nat);
        let last = items[k - 1];
        if 0 < last.weight <= capacity {
            let rest = (capacity - last.weight) as nat;
            if table_upto(items, rest, items.len()) + last.value > table_upto(
                items,
                capacity,
                (k - 1) as nat,
            ) {
                let shorter = table_witness(items, rest, items.len());
                let picks = shorter.push(k - 1);
                assert(picks.drop_last() =~= shorter);
                picks
            } else {
                before
            }
        } else {
            before
        }
    }
}

/// Trying more item types as the last pick never lowers an entry.
proof fn lemma_table_grows(items: Seq<Item>, capacity: nat, j: nat, k: nat)
    requires
        j <= k,
    ensures
        table_upto(items, capacity, j) <= table_upto(items, capacity, k),
    decreases k,
{
    if j < k {
        lemma_table_grows(items, capacity, j, (k - 1) as nat);
    }
}

/// No packing within `capacity` is worth more than the table's entry.
proof fn lemma_table_bounds_packings(items: Seq<Item>, capacity: nat, picks: Seq<int>)
    requires
        is_packing(items, capacity as int, picks),
        !has_free_value(items),
    ensures
        packing_value(items, picks) <= table(items, capacity),
    decreases picks.len(),
{
    if picks.len() > 0 {
        let shorter = picks.drop_last();
        let p = picks.last();
        let last = items[p];
        lemma_packing_nonnegative(items, shorter);
        if last.weight == 0 {
            assert(last.value == 0);
            lemma_table_bounds_packings(items, capacity, shorter);
        } else {
            let rest = (capacity - last.weight) as nat;
            lemma_table_bounds_packings(items, rest, shorter);
            lemma_table_grows(items, capacity, (p + 1) as nat, items.len());
            assert(table_upto(items, capacity, (p + 1) as nat) >= table(items, rest) + last.value);
        }
    }
}

/// An entry is at most its capacity times the largest value an item type
/// can have, which fits in 128 bits.
proof fn lemma_table_fits(items: Seq<Item>, capacity: nat, k: nat)
    requires
        k <= items.len(),
    ensures
        table_upto(items, capacity, k) <= capacity * WORD_MAX,
    decreases capacity, k,
{
    if k > 0 {
        lemma_table_fits(items, capacity, (k - 1) as nat);
        let last = items[k - 1];
        if 0 < last.weight <= capacity {
            lemma_table_fits(items, (capacity - last.weight) as nat, items.len());
        }
    }
}

/// The finished entry for a capacity is what the best packing within that
/// capacity is worth.
proof fn lemma_table_is_optimal(items: Seq<Item>, capacity: nat)
    requires
        !has_free_value(items),
    ensures
        is_optimal_value(items, capacity as int, table(items, capacity) as int),
{
    let best = table_witness(items, capacity, items.len());
    assert(is_packing(items, capacity as int, best));
    assert forall|picks: Seq<int>| #[trigger]
        is_packing(items, capacity as int, picks) implies packing_value(items, picks) <= table(
        items,
        capacity,
    ) by {
        lemma_table_bounds_packings(items, capacity, picks);
    }
}

/// What the best packing of `items` within `capacity` is worth, where there is
/// a best packing.
pub open spec fn best_value(items: Seq<Item>, capacity: int) -> int {
    choose|value: int| is_optimal_value(items, capacity, value)
}

/// At most one value is optimal.
pub proof fn lemma_optimal_value_unique(items: Seq<Item>, capacity: int, a: int, b: int)
    requires
        is_optimal_value(items, capacity, a),
        is_optimal_value(items, capacity, b),
    ensures
        a == b,
{
}

/// An optimal value is the value that `best_value` names.
pub proof fn lemma_best_value(items: Seq<Item>, capacity: int, value: int)
    requires
        is_optimal_value(items, capacity, value),
    ensures
        best_value(items, capacity) == value,
{
    lemma_optimal_value_unique(items, capacity, value, best_value(items, capacity));
}

/// With no item types to pick from, the best packing is worth nothing.
pub proof fn lemma_nothing_to_pack(items: Seq<Item>, capacity: int)
    requires
        items.len() == 0,
        capacity >= 0,
    ensures
        is_optimal_value(items, capacity, 0),
{
    let none = Seq::<int>::empty();
    assert(is_packing(items, capacity, none));
    assert(packing_value(items, none) == 0);
    assert forall|picks: Seq<int>| #[trigger]
        is_packing(items, capacity, picks) implies packing_value(items, picks) <= 0 by {
        if picks.len() > 0 {
            assert(0 <= picks[0] < items.len());
        }
    }
}

/// Two packings whose picks name equal item types, pick by pick, weigh the
/// same and are worth the same.
proof fn lemma_same_picks(a: Seq<Item>, picks_a: Seq<int>, b: Seq<Item>, picks_b: Seq<int>)
    requires
        picks_a.len() == picks_b.len(),
        forall|k: int| 0 <= k < picks_a.len() ==> a[#[trigger] picks_a[k]] == b[picks_b[k]],
    ensures
        packing_weight(a, picks_a) == packing_weight(b, picks_b),
        packing_value(a, picks_a) == packing_value(b, picks_b),
    decreases picks_a.len(),
{
    if picks_a.len() > 0 {
        assert(a[picks_a[picks_a.len() - 1]] == b[picks_b[picks_a.len() - 1]]);
        lemma_same_picks(a, picks_a.drop_last(), b, picks_b.drop_last());
    }
}

/// The order of the item types does not matter to what the best packing is
/// worth.
pub proof fn lemma_arranged_optimal(
    items: Seq<Item>,
    order: Seq<usize>,
    capacity: int,
    value: int,
)
    requires
        is_arrangement(order, items.len()),
        is_optimal_value(arranged(items, order), capacity, value),
    ensures
        is_optimal_value(items, capacity, value),
{
    let moved = arranged(items, order);
    let best = choose|picks: Seq<int>| #[trigger]
        is_packing(moved, capacity, picks) && packing_value(moved, picks) == value;
    let back = Seq::new(best.len(), |k: int| order[best[k]] as int);
    assert forall|k: int| 0 <= k < back.len() implies items[#[trigger] back[k]] == moved[best[k]]
        && 0 <= back[k] < items.len() by {
        assert(0 <= best[k] < moved.len());
    }
    lemma_same_picks(items, back, moved, best);
    assert(is_packing(items, capacity, back));
    assert forall|picks: Seq<int>| #[trigger]
        is_packing(items, capacity, picks) implies packing_value(items, picks) <= value by {
        let there = Seq::new(
            picks.len(),
            |k: int| choose|j: int| 0 <= j < order.len() && order[j] == picks[k],
        );
        assert forall|k: int| 0 <= k < there.len() implies moved[#[trigger] there[k]]
            == items[picks[k]] && 0 <= there[k] < moved.len() by {
            assert(0 <= picks[k] < items.len());
            assert(order.contains(picks[k] as usize));
        }
        lemma_same_picks(moved, there, items, picks);
        assert(is_packing(moved, capacity, there));
    }
}

/// The order of the item types does not matter to whether one of them is
/// worth something and weighs nothing.
pub proof fn lemma_arranged_free_value(items: Seq<Item>, order: Seq<usize>)
    requires
        is_arrangement(order, items.len()),
    ensures
        has_free_value(arranged(items, order)) == has_free_value(items),
{
    let moved = arranged(items, order);
    if has_free_value(moved) {
        let k = choose|k: int|
            0 <= k < moved.len() && (#[trigger] moved[k]).weight == 0 && moved[k].value > 0;
        assert(items[order[k] as int] == moved[k]);
    }
    if has_free_value(items) {
        let k = choose|k: int|
            0 <= k < items.len() && (#[trigger] items[k]).weight == 0 && items[k].value > 0;
        assert(order.contains(k as usize));
        let j = choose|j: int| 0 <= j < order.len() && order[j] == k as usize;
        assert(moved[j] == items[k]);
    }
}

impl UnboundedKnapsack {
    /// Creates the instance, its item types in descending order of density
    /// and, among equal densities, in the order given.
    pub fn new(items: Vec<Item>, capacity: usize) -> (ukp: UnboundedKnapsack)
        ensures
            ukp.capacity == capacity,
            exists|order: Seq<usize>| #[trigger]
                is_density_order(items@, order) && ukp.items@ == arranged(items@, order),
    {
        let mut items = items;
        sort_items(&mut items);
        UnboundedKnapsack { items, capacity }
    }

    /// Whether some item type weighs nothing and is worth something.
    fn offers_free_value(&self) -> (free: bool)
        ensures
            free == has_free_value(self.items@),
    {
        let mut k: usize = 0;
        while k < self.items.len()
            invariant
                k <= self.items.len(),
                forall|j: int| 0 <= j < k ==> !((#[trigger] self.items@[j]).weight == 0
                    && self.items@[j].value > 0),
            decreases self.items.len() - k,
        {
            if self.items[k].weight == 0 && self.items[k].value > 0 {
                return true;
            }
            k += 1;
        }
        false
    }

    /// The value of the best packing. An instance with an item type that
    /// weighs nothing and is worth something has no best packing and is
    /// refused.
    pub fn solve(&self) -> (result: Result<u128, CeError>)
        ensures
            result is Err <==> has_free_value(self.items@),
            result matches Ok(value) ==> is_optimal_value(
                self.items@,
                self.capacity as int,
                value as int,
            ),
            result matches Ok(value) ==> (self.items@.len() == 0 || self.capacity == 0 ==> value
                == 0),
            result matches Err(error) ==> error == (CeError::InvalidArgument {
                argument: Argument::Instance,
            }),
    {
        if self.offers_free_value() {
            return Err(CeError::InvalidArgument { argument: Argument::Instance });
        }
        let n = self.items.len();
        // best[c - 1] is the table's entry for capacity c; the entry for 0 is 0.
        let mut best: Vec<u128> = Vec::new();
        let mut filled: usize = 0;
        while filled < self.capacity
            invariant
                filled <= self.capacity,
                n == self.items.len(),
                best.len() == filled,
                forall|c: int| 0 < c <= filled ==> #[trigger] best@[c - 1] == table(self.items@, c as nat),
            decreases self.capacity - filled,
        {
            let level = filled + 1;
            let mut top: u128 = 0;
            let mut k: usize = 0;
            while k < n
                invariant
                    k <= n,
                    n == self.items.len(),
                    level == filled + 1,
                    best.len() == filled,
                    top == table_upto(self.items@, level as nat, k as nat),
                    forall|c: int| 0 < c <= filled ==> #[trigger] best@[c - 1] == table(
                        self.items@,
                        c as nat,
                    ),
                decreases n - k,
            {
                let weight = self.items[k].weight;
                if 0 < weight && weight <= level {
                    let rest = level - weight;
                    let below: u128 = if rest == 0 {
                        0
                    } else {
                        best[rest - 1]
                    };
                    proof {
                        lemma_table_fits(self.items@, rest as nat, self.items@.len());
                        assert(rest * WORD_MAX + WORD_MAX <= WORD_MAX * WORD_MAX) by (nonlinear_arith)
                            requires
                                0 <= rest < WORD_MAX,
                        ;
                        assert(table(self.items@, 0) == 0) by {
                            lemma_table_fits(self.items@, 0, self.items@.len());
                        }
                    }
                    let with_this = below + self.items[k].value as u128;
                    if with_this > top {
                        top = with_this;
                    }
                }
                k += 1;
            }
            best.push(top);
            filled += 1;
        }
        proof {
            lemma_table_is_optimal(self.items@, self.capacity as nat);
            assert(table(self.items@, 0) == 0) by {
                lemma_table_fits(self.items@, 0, self.items@.len());
            }
            assert(self.items@.len() == 0 ==> table(self.items@, self.capacity as nat) == 0);
        }
        if self.capacity == 0 {
            Ok(0)
        } else {
            Ok(best[self.capacity - 1])
        }
    }
}

} // verus!
