//! Ordering item types by descending density, equal densities in their first order.

use vstd::prelude::*;
use crate::item::{bare, denser, same_density, Density, Item, ItemWithSetup};

verus! {

/// `order` lists each of the positions `0 .. n` exactly once.
pub open spec fn is_arrangement(order: Seq<usize>, n: nat) -> bool {
    &&& order.len() == n
    &&& n <= usize::MAX
    &&& forall|k: int| 0 <= k < n ==> (#[trigger] order[k]) < n
    &&& forall|i: int, j: int| 0 <= i < j < n ==> #[trigger] order[i] != #[trigger] order[j]
    &&& forall|p: usize| p < n ==> #[trigger] order.contains(p)
}

/// Every item type weighs something.
pub open spec fn all_weigh(items: Seq<Item>) -> bool {
    forall|k: int| 0 <= k < items.len() ==> (#[trigger] items[k]).weight > 0
}

/// `order` arranges the positions of `items` so that item types of equal
/// density keep their first order and, where every item type weighs
/// something, no item type stands before a denser one.
pub open spec fn is_density_order(items: Seq<Item>, order: Seq<usize>) -> bool {
    &&& is_arrangement(order, items.len())
    &&& forall|i: int, j: int|
        0 <= i < j < order.len() && same_density(
            items[#[trigger] order[i] as int],
            items[#[trigger] order[j] as int],
        ) ==> order[i] < order[j]
    &&& all_weigh(items) ==> forall|i: int, j: int|
        0 <= i < j < order.len() ==> !denser(
            items[#[trigger] order[j] as int],
            items[#[trigger] order[i] as int],
        )
}

/// The items at the positions that `order` lists, in that order.
pub open spec fn arranged<T>(items: Seq<T>, order: Seq<usize>) -> Seq<T> {
    Seq::new(order.len(), |k: int| items[order[k] as int])
}

/// Where `b` weighs something, "not less dense than" carries over from `a`
/// against `b` and `b` against `c` to `a` against `c`.
pub proof fn lemma_density_transitive(a: Item, b: Item, c: Item)
    requires
        !denser(b, a),
        !denser(c, b),
        b.weight > 0,
    ensures
        !denser(c, a),
{
    let (av, aw) = (a.value as int, a.weight as int);
    let (bv, bw) = (b.value as int, b.weight as int);
    let (cv, cw) = (c.value as int, c.weight as int);
    assert(cv * aw <= av * cw) by (nonlinear_arith)
        requires
            bv * aw <= av * bw,
            cv * bw <= bv * cw,
            bw > 0,
            av >= 0,
            aw >= 0,
            bv >= 0,
            cv >= 0,
            cw >= 0,
    {
        assert((cv * bw) * aw <= (bv * cw) * aw);
        assert((bv * aw) * cw <= (av * bw) * cw);
        assert((cv * aw) * bw <= (av * cw) * bw);
    }
}

/// The positions of `items` in descending order of density.
pub fn density_order(items: &Vec<Item>) -> (order: Vec<usize>)
    ensures
        is_density_order(items@, order@),
{
    let mut order: Vec<usize> = Vec::new();
    let mut m: usize = 0;
    while m < items.len()
        invariant
            m <= items.len(),
            is_density_order(items@.take(m as int), order@),
        decreases items.len() - m,
    {
        let ghost prefix = items@.take(m as int);
        let ghost before = order@;
        let mut t: usize = order.len();
        while t > 0 && items[m].density_against(&items[order[t - 1]]) == Density::Higher
            invariant
                t <= order.len(),
                order.len() == m,
                m < items.len(),
                is_arrangement(order@, m as nat),
                forall|k: int| t <= k < m ==> denser(items@[m as int], items@[#[trigger] order@[k] as int]),
            decreases t,
        {
            t -= 1;
        }
        order.insert(t, m);
        proof {
            let next = items@.take(m + 1);
            let after = order@;
            assert(after.len() == m + 1);
            assert(forall|k: int| 0 <= k < t ==> after[k] == before[k]);
            assert(after[t as int] == m);
            assert(forall|k: int| t < k <= m ==> after[k] == before[k - 1]);
            assert forall|p: usize| p < m + 1 implies #[trigger] after.contains(p) by {
                if p == m {
                    assert(after[t as int] == p);
                } else {
                    assert(before.contains(p));
                    let k0 = choose|k: int| 0 <= k < before.len() && before[k] == p;
                    if k0 < t {
                        assert(after[k0] == p);
                    } else {
                        assert(after[k0 + 1] == p);
                    }
                }
            }
            assert(is_arrangement(after, (m + 1) as nat));
            assert forall|i: int, j: int|
                0 <= i < j < after.len() && same_density(
                    next[#[trigger] after[i] as int],
                    next[#[trigger] after[j] as int],
                ) implies after[i] < after[j] by {
                if i == t {
                    assert(after[j] == before[j - 1]);
                    assert(denser(items@[m as int], items@[before[j - 1] as int]));
                } else if j == t {
                } else {
                    let (oi, oj) = (if i < t { i } else { i - 1 }, if j < t { j } else { j - 1 });
                    assert(after[i] == before[oi] && after[j] == before[oj]);
                    assert(prefix[before[oi] as int] == next[after[i] as int]);
                    assert(prefix[before[oj] as int] == next[after[j] as int]);
                }
            }
            if all_weigh(next) {
                assert forall|k: int| 0 <= k < prefix.len() implies (#[trigger] prefix[k]).weight
                    > 0 by {
                    assert(prefix[k] == next[k]);
                }
                assert forall|i: int, j: int| 0 <= i < j < after.len() implies !denser(
                    next[#[trigger] after[j] as int],
                    next[#[trigger] after[i] as int],
                ) by {
                    let x = items@[m as int];
                    if i == t {
                        assert(after[j] == before[j - 1]);
                        assert(denser(x, items@[before[j - 1] as int]));
                    } else if j == t {
                        // i < t: the scan stopped at t, so the item before t is
                        // not less dense than x, and neither is any before it.
                        let stop = items@[before[t - 1] as int];
                        assert(!denser(x, stop));
                        let a = items@[before[i] as int];
                        if i < t - 1 {
                            assert(!denser(prefix[before[t - 1] as int], prefix[before[i] as int]));
                        }
                        assert(next[before[t - 1] as int].weight > 0);
                        lemma_density_transitive(a, stop, x);
                    } else {
                        let (oi, oj) = (
                            if i < t { i } else { i - 1 },
                            if j < t { j } else { j - 1 },
                        );
                        assert(after[i] == before[oi] && after[j] == before[oj]);
                        assert(!denser(prefix[before[oj] as int], prefix[before[oi] as int]));
                    }
                }
            }
        }
        m += 1;
    }
    proof {
        assert(items@.take(m as int) =~= items@);
    }
    order
}

/// The items at the positions that `order` lists, in that order.
fn arrange<T: Copy>(items: &Vec<T>, order: &Vec<usize>) -> (moved: Vec<T>)
    requires
        is_arrangement(order@, items@.len()),
    ensures
        moved@ == arranged(items@, order@),
{
    let mut moved: Vec<T> = Vec::new();
    let mut k: usize = 0;
    while k < order.len()
        invariant
            k <= order@.len(),
            is_arrangement(order@, items@.len()),
            moved@ == arranged(items@, order@.take(k as int)),
        decreases order.len() - k,
    {
        moved.push(items[order[k]]);
        proof {
            assert(order@.take(k + 1) == order@.take(k as int).push(order@[k as int]));
            assert(moved@ =~= arranged(items@, order@.take(k + 1)));
        }
        k += 1;
    }
    proof {
        assert(order@.take(k as int) =~= order@);
    }
    moved
}

/// Puts item types in descending order of density, equal densities in their
/// first order.
pub fn sort_items(items: &mut Vec<Item>)
    ensures
        exists|order: Seq<usize>| #[trigger]
            is_density_order(old(items)@, order) && final(items)@ == arranged(old(items)@, order),
{
    let order = density_order(items);
    let sorted = arrange(items, &order);
    *items = sorted;
}

/// Puts item types with setups in descending order of density, equal
/// densities in their first order.
pub fn sort_items_with_setup(items: &mut Vec<ItemWithSetup>)
    ensures
        exists|order: Seq<usize>| #[trigger]
            is_density_order(bare(old(items)@), order) && final(items)@ == arranged(
                old(items)@,
                order,
            ),
{
    let mut keys: Vec<Item> = Vec::new();
    let mut k: usize = 0;
    while k < items.len()
        invariant
            k <= items@.len(),
            keys@ == bare(items@.take(k as int)),
        decreases items.len() - k,
    {
        keys.push(items[k].item);
        proof {
            assert(keys@ =~= bare(items@.take(k + 1)));
        }
        k += 1;
    }
    proof {
        assert(items@.take(k as int) =~= items@);
    }
    let order = density_order(&keys);
    let sorted = arrange(items, &order);
    *items = sorted;
}

} // verus!
