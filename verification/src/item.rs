//! Item types and their order by density, the value carried per unit of weight.

use vstd::prelude::*;
use core::cmp::Ordering;
use vstd::std_specs::cmp::{PartialEqSpecImpl, PartialOrdSpecImpl};

verus! {

/// An item type: what one unit is worth and what it weighs.
#[derive(Clone, Copy, Debug, Eq)]
pub struct Item {
    pub id: usize,
    pub value: usize,
    pub weight: usize,
}

/// An item type that costs `setup_cost` and `setup_time` once, however many
/// units of it are used.
#[derive(Clone, Copy, Debug, Eq)]
pub struct ItemWithSetup {
    pub item: Item,
    pub setup_cost: usize,
    pub setup_time: usize,
}

/// The item types without their setups.
pub open spec fn bare(items: Seq<ItemWithSetup>) -> Seq<Item> {
    Seq::new(items.len(), |k: int| items[k].item)
}

/// How the densities of two item types relate.
#[derive(Clone, Copy, Debug, PartialEq, Eq, Structural)]
pub enum Density {
    Higher,
    Same,
    Lower,
}

/// `a` carries strictly more value per weight than `b`. Densities are compared
/// exactly, by cross-multiplication.
pub open spec fn denser(a: Item, b: Item) -> bool {
    a.value * b.weight > b.value * a.weight
}

/// `a` and `b` carry the same value per weight.
pub open spec fn same_density(a: Item, b: Item) -> bool {
    a.value * b.weight == b.value * a.weight
}

/// The density of `a` against that of `b`.
pub open spec fn density_of(a: Item, b: Item) -> Density {
    if denser(a, b) {
        Density::Higher
    } else if same_density(a, b) {
        Density::Same
    } else {
        Density::Lower
    }
}

/// The product of two machine words, which always fits in 128 bits.
fn widening_product(a: usize, b: usize) -> (p: u128)
    ensures
        p == a * b,
{
    assert(a * b <= 0xffff_ffff_ffff_ffff * 0xffff_ffff_ffff_ffff) by (nonlinear_arith)
        requires
            0 <= a <= 0xffff_ffff_ffff_ffff,
            0 <= b <= 0xffff_ffff_ffff_ffff,
    ;
    (a as u128) * (b as u128)
}

/// Creates the item type with the given identifier, value and weight.
pub fn item(id: usize, value: usize, weight: usize) -> (it: Item)
    ensures
        it.id == id,
        it.value == value,
        it.weight == weight,
{
    Item { id, value, weight }
}

impl Item {
    /// Compares the density of `self` with that of `other`.
    pub fn density_against(&self, other: &Item) -> (d: Density)
        ensures
            d == density_of(*self, *other),
    {
        let left = widening_product(self.value, other.weight);
        let right = widening_product(other.value, self.weight);
        if left > right {
            Density::Higher
        } else if left == right {
            Density::Same
        } else {
            Density::Lower
        }
    }
}

/// Item types are equal where their densities are.
impl PartialEq for Item {
    fn eq(&self, other: &Item) -> (same: bool) {
        self.density_against(other) == Density::Same
    }
}

impl PartialEqSpecImpl for Item {
    open spec fn obeys_eq_spec() -> bool {
        true
    }

    open spec fn eq_spec(&self, other: &Item) -> bool {
        same_density(*self, *other)
    }
}

/// An item type is less than another where it is the denser of the two, so
/// that ascending order is descending order of density.
impl PartialOrd for Item {
    fn partial_cmp(&self, other: &Item) -> (order: Option<Ordering>) {
        match self.density_against(other) {
            Density::Higher => Some(Ordering::Less),
            Density::Same => Some(Ordering::Equal),
            Density::Lower => Some(Ordering::Greater),
        }
    }
}

impl PartialOrdSpecImpl for Item {
    open spec fn obeys_partial_cmp_spec() -> bool {
        true
    }

    open spec fn partial_cmp_spec(&self, other: &Item) -> Option<Ordering> {
        match density_of(*self, *other) {
            Density::Higher => Some(Ordering::Less),
            Density::Same => Some(Ordering::Equal),
            Density::Lower => Some(Ordering::Greater),
        }
    }
}

impl ItemWithSetup {
    /// Creates the item type with the given identifier, value, weight and setup.
    pub fn new(id: usize, value: usize, weight: usize, setup_cost: usize, setup_time: usize) -> (it:
        ItemWithSetup)
        ensures
            it.item.id == id,
            it.item.value == value,
            it.item.weight == weight,
            it.setup_cost == setup_cost,
            it.setup_time == setup_time,
    {
        ItemWithSetup { item: item(id, value, weight), setup_cost, setup_time }
    }
}

/// Item types with setups are equal where the densities of their item types
/// are.
impl PartialEq for ItemWithSetup {
    fn eq(&self, other: &ItemWithSetup) -> (same: bool) {
        self.item.density_against(&other.item) == Density::Same
    }
}

impl PartialEqSpecImpl for ItemWithSetup {
    open spec fn obeys_eq_spec() -> bool {
        true
    }

    open spec fn eq_spec(&self, other: &ItemWithSetup) -> bool {
        same_density(self.item, other.item)
    }
}

/// Item types with setups are ordered as their item types are.
impl PartialOrd for ItemWithSetup {
    fn partial_cmp(&self, other: &ItemWithSetup) -> (order: Option<Ordering>) {
        match self.item.density_against(&other.item) {
            Density::Higher => Some(Ordering::Less),
            Density::Same => Some(Ordering::Equal),
            Density::Lower => Some(Ordering::Greater),
        }
    }
}

impl PartialOrdSpecImpl for ItemWithSetup {
    open spec fn obeys_partial_cmp_spec() -> bool {
        true
    }

    open spec fn partial_cmp_spec(&self, other: &ItemWithSetup) -> Option<Ordering> {
        match density_of(self.item, other.item) {
            Density::Higher => Some(Ordering::Less),
            Density::Same => Some(Ordering::Equal),
            Density::Lower => Some(Ordering::Greater),
        }
    }
}

} // verus!
