use kps_ce::error::{Argument, CeError};
use kps_ce::item::{item, Item, ItemWithSetup};
use kps_ce::knapsack::UnboundedKnapsack;
use kps_ce::ranking::{density_order, sort_items, sort_items_with_setup};
use kps_ce::setups::{lower_bound, KnapsackWithSetups};

#[test]
fn test_item_id() {
    let items = vec![item(0, 5, 5), item(1, 30, 20)];
    assert_eq!(items[0].id, 0);
    assert_eq!(items[1].id, 1);
}

#[test]
fn test_item_sort() {
    let mut items = vec![item(0, 10, 10), item(1, 30, 20)];
    sort_items(&mut items);
    assert!(items == vec![item(2, 30, 20), item(3, 10, 10)]);
}

#[test]
fn test_unbounded_knapsack_creation() {
    let capacity = 5000;
    let ukp = UnboundedKnapsack::new(vec![item(0, 30, 20), item(1, 10, 10)], capacity);

    assert_eq!(ukp.capacity, capacity);
    assert!(ukp.items == vec![item(2, 30, 20), item(3, 10, 10)]);

    let ukp2 = UnboundedKnapsack::new(vec![item(4, 5, 5), item(5, 10, 2), item(6, 99, 1)], capacity);
    assert!(ukp2.items == vec![item(7, 99, 1), item(8, 10, 2), item(9, 5, 5)]);
}

#[test]
fn test_unbounded_knapsack_solving() {
    let ukp = UnboundedKnapsack::new(vec![item(0, 3, 2), item(1, 2, 1)], 4);
    assert_eq!(ukp.solve(), Ok(8));

    let ukp2 = UnboundedKnapsack::new(vec![item(2, 10, 5), item(3, 30, 10), item(4, 20, 15)], 100);
    assert_eq!(ukp2.solve(), Ok(300));
}

#[test]
fn test_item_with_setup_sort() {
    let mut items: Vec<ItemWithSetup> = vec![
        ItemWithSetup::new(0, 10, 10, 99, 100),
        ItemWithSetup::new(1, 20, 5, 5, 1),
    ];
    sort_items_with_setup(&mut items);
    assert!(
        items
            == vec![
                ItemWithSetup::new(2, 20, 5, 0, 0),
                ItemWithSetup::new(3, 10, 10, 0, 0)
            ]
    );
}

#[test]
fn test_knapsack_with_setup_creation() {
    let capacity = 5000;
    let kps = KnapsackWithSetups::new(
        vec![
            ItemWithSetup::new(0, 30, 20, 5, 7),
            ItemWithSetup::new(1, 80, 1, 99, 100),
        ],
        capacity,
    );

    assert_eq!(kps.capacity, capacity);
    assert!(
        kps.items
            == vec![
                ItemWithSetup::new(2, 30, 20, 5, 7),
                ItemWithSetup::new(3, 80, 1, 99, 100)
            ]
    );
}

fn ids(items: &Vec<Item>) -> Vec<usize> {
    items.iter().map(|it| it.id).collect()
}

#[test]
fn sort_puts_denser_items_first() {
    let mut items = vec![item(0, 10, 10), item(1, 30, 20)];
    sort_items(&mut items);
    assert_eq!(ids(&items), vec![1, 0]);
}

#[test]
fn sort_tells_close_densities_apart() {
    // 7/2 is denser than 10/3, though both round down to 3.
    let mut items = vec![item(0, 7, 2), item(1, 10, 3)];
    sort_items(&mut items);
    assert_eq!(ids(&items), vec![0, 1]);
    let mut items = vec![item(0, 10, 3), item(1, 7, 2)];
    sort_items(&mut items);
    assert_eq!(ids(&items), vec![1, 0]);
}

#[test]
fn sort_keeps_equal_densities_in_their_order() {
    let mut items = vec![item(0, 2, 4), item(1, 3, 3), item(2, 1, 2), item(3, 5, 5), item(4, 4, 8)];
    sort_items(&mut items);
    assert_eq!(ids(&items), vec![1, 3, 0, 2, 4]);
}

#[test]
fn density_order_lists_every_position_once() {
    let items = vec![item(0, 1, 9), item(1, 5, 1), item(2, 4, 4), item(3, 5, 1), item(4, 0, 3)];
    let order = density_order(&items);
    assert_eq!(order, vec![1, 3, 2, 0, 4]);
}

#[test]
fn density_equality_is_by_ratio() {
    assert!(item(0, 2, 4) == item(1, 1, 2));
    assert!(item(0, 10, 3) != item(1, 7, 2));
    assert!(item(0, 30, 20) < item(1, 10, 10));
    assert!(item(0, 10, 10) > item(1, 30, 20));
    assert!(ItemWithSetup::new(0, 2, 4, 1, 1) == ItemWithSetup::new(1, 1, 2, 9, 9));
    assert!(ItemWithSetup::new(0, 20, 5, 1, 1) < ItemWithSetup::new(1, 10, 10, 9, 9));
}

#[test]
fn solve_empty_item_list_is_zero() {
    assert_eq!(UnboundedKnapsack::new(vec![], 0).solve(), Ok(0));
    assert_eq!(UnboundedKnapsack::new(vec![], 17).solve(), Ok(0));
    assert_eq!(UnboundedKnapsack::new(vec![], 100_000).solve(), Ok(0));
}

#[test]
fn solve_capacity_zero_is_zero() {
    let ukp = UnboundedKnapsack::new(vec![item(0, 3, 2), item(1, 2, 1)], 0);
    assert_eq!(ukp.solve(), Ok(0));
}

#[test]
fn solve_leaves_capacity_unused_where_nothing_fits() {
    let ukp = UnboundedKnapsack::new(vec![item(0, 7, 5)], 4);
    assert_eq!(ukp.solve(), Ok(0));
    let ukp = UnboundedKnapsack::new(vec![item(0, 7, 5)], 14);
    assert_eq!(ukp.solve(), Ok(14));
}

#[test]
fn solve_prefers_the_combination_over_the_densest() {
    // The densest item alone gives 9 (one unit); 2 + 2 + ... of the other gives 10.
    let ukp = UnboundedKnapsack::new(vec![item(0, 9, 6), item(1, 5, 5)], 10);
    assert_eq!(ukp.solve(), Ok(10));
}

#[test]
fn solve_refuses_free_value() {
    let ukp = UnboundedKnapsack::new(vec![item(0, 3, 2), item(1, 1, 0)], 4);
    assert_eq!(
        ukp.solve(),
        Err(CeError::InvalidArgument { argument: Argument::Instance })
    );
}

#[test]
fn solve_takes_worthless_weightless_items() {
    let ukp = UnboundedKnapsack::new(vec![item(0, 0, 0), item(1, 3, 2)], 5);
    assert_eq!(ukp.solve(), Ok(6));
}

#[test]
fn solve_does_not_overflow_on_large_values() {
    let ukp = UnboundedKnapsack::new(vec![item(0, usize::MAX, 1)], 3);
    assert_eq!(ukp.solve(), Ok(3 * (usize::MAX as u128)));
}

#[test]
fn lower_bound_is_the_least_repaying_count() {
    // floor(5 / 30) + 1 = 1 unit of weight 20 fits into 5000.
    assert_eq!(lower_bound(&ItemWithSetup::new(0, 30, 20, 5, 7), 5000), Some(1));
    // floor(99 / 80) + 1 = 2.
    assert_eq!(lower_bound(&ItemWithSetup::new(0, 80, 1, 99, 100), 5000), Some(2));
    // floor(100 / 10) + 1 = 11 units, 33 in weight.
    assert_eq!(lower_bound(&ItemWithSetup::new(0, 10, 3, 100, 0), 33), Some(11));
    // A setup cost that is a multiple of the value still asks for one unit more.
    assert_eq!(lower_bound(&ItemWithSetup::new(0, 10, 1, 30, 0), 4), Some(4));
    assert_eq!(lower_bound(&ItemWithSetup::new(0, 10, 1, 0, 0), 1), Some(1));
}

#[test]
fn lower_bound_is_missing_where_the_count_does_not_fit() {
    assert_eq!(lower_bound(&ItemWithSetup::new(0, 10, 3, 100, 0), 32), None);
    assert_eq!(lower_bound(&ItemWithSetup::new(0, 10, 1, 30, 0), 3), None);
    assert_eq!(lower_bound(&ItemWithSetup::new(0, 10, 1, 0, 0), 0), None);
}

#[test]
fn lower_bound_is_missing_for_a_worthless_item() {
    assert_eq!(lower_bound(&ItemWithSetup::new(0, 0, 1, 0, 0), 100), None);
}

#[test]
fn lower_bound_at_the_limits_of_the_machine() {
    assert_eq!(lower_bound(&ItemWithSetup::new(0, 1, 1, usize::MAX, 0), usize::MAX), None);
    assert_eq!(lower_bound(&ItemWithSetup::new(0, 1, 0, usize::MAX, 0), usize::MAX), None);
    assert_eq!(
        lower_bound(&ItemWithSetup::new(0, 1, 1, usize::MAX - 1, 0), usize::MAX),
        Some(usize::MAX)
    );
    assert_eq!(lower_bound(&ItemWithSetup::new(0, 1, 2, usize::MAX - 1, 0), usize::MAX), None);
}

#[test]
fn instance_holds_the_lower_bound_of_each_item() {
    let kps = KnapsackWithSetups::new(
        vec![
            ItemWithSetup::new(0, 30, 20, 5, 7),
            ItemWithSetup::new(1, 80, 1, 99, 100),
            ItemWithSetup::new(2, 1, 4000, 1, 0),
        ],
        5000,
    );
    assert_eq!(kps.num_items(), 3);
    assert_eq!(kps.lower_bounds, vec![Some(1), Some(2), None]);
}

fn instance() -> KnapsackWithSetups {
    KnapsackWithSetups::new(
        vec![
            ItemWithSetup::new(0, 10, 5, 0, 0),
            ItemWithSetup::new(1, 30, 10, 5, 1),
            ItemWithSetup::new(2, 20, 15, 0, 0),
            ItemWithSetup::new(3, 1000, 60, 5000, 0),
        ],
        100,
    )
}

#[test]
fn associated_ukp_keeps_the_selected_items() {
    let kps = instance();
    let ukp = kps.associated_ukp(vec![true, false, true, false]).unwrap();
    assert_eq!(ukp.capacity, 100);
    assert_eq!(ids(&ukp.items), vec![0, 2]);
    let ukp = kps.associated_ukp(vec![true, true, true, false]).unwrap();
    assert_eq!(ids(&ukp.items), vec![1, 0, 2]);
}

#[test]
fn associated_ukp_leaves_out_items_without_lower_bound() {
    let kps = instance();
    assert_eq!(kps.lower_bounds[3], None);
    let ukp = kps.associated_ukp(vec![false, true, false, true]).unwrap();
    assert_eq!(ids(&ukp.items), vec![1]);
    let ukp = kps.associated_ukp(vec![false, false, false, true]).unwrap();
    assert!(ukp.items.is_empty());
    assert_eq!(ukp.solve(), Ok(0));
}

#[test]
fn associated_ukp_of_nothing_is_empty() {
    let kps = instance();
    let ukp = kps.associated_ukp(vec![false; 4]).unwrap();
    assert!(ukp.items.is_empty());
    assert_eq!(ukp.capacity, 100);
    assert_eq!(ukp.solve(), Ok(0));
}

#[test]
fn associated_ukp_refuses_another_length() {
    let kps = instance();
    assert!(kps.associated_ukp(vec![true; 3]).is_none());
    assert!(kps.associated_ukp(vec![true; 5]).is_none());
    assert!(kps.associated_ukp(vec![]).is_none());
}

#[test]
fn evaluate_values_the_restricted_instance() {
    let kps = instance();
    assert_eq!(kps.evaluate(vec![true, true, true, true]), Ok(300));
    assert_eq!(kps.evaluate(vec![true, false, true, false]), Ok(200));
    assert_eq!(kps.evaluate(vec![false, false, true, false]), Ok(120));
    assert_eq!(kps.evaluate(vec![false, false, false, true]), Ok(0));
    assert_eq!(kps.evaluate(vec![false, false, false, false]), Ok(0));
}

#[test]
fn evaluate_names_what_it_refuses() {
    let kps = instance();
    assert_eq!(
        kps.evaluate(vec![true]),
        Err(CeError::InvalidArgument { argument: Argument::Candidate })
    );
    let free = KnapsackWithSetups::new(vec![ItemWithSetup::new(0, 1, 0, 0, 0)], 10);
    assert_eq!(
        free.evaluate(vec![true]),
        Err(CeError::InvalidArgument { argument: Argument::Instance })
    );
    assert_eq!(free.evaluate(vec![false]), Ok(0));
}

#[test]
fn instance_knows_whether_its_lower_bounds_are_its_own() {
    let mut kps = instance();
    assert!(kps.is_wf());
    kps.lower_bounds[0] = None;
    assert!(!kps.is_wf());
    let mut kps = instance();
    kps.lower_bounds.pop();
    assert!(!kps.is_wf());
    let mut kps = instance();
    kps.capacity = 1;
    assert!(!kps.is_wf());
}

/// The best value by trying every count of every item type.
fn exhaustive(items: &[(usize, usize)], capacity: usize) -> u128 {
    match items.split_first() {
        None => 0,
        Some((&(value, weight), rest)) => {
            let mut best = 0;
            let mut count = 0;
            while count * weight <= capacity {
                let here = (count * value) as u128 + exhaustive(rest, capacity - count * weight);
                best = best.max(here);
                count += 1;
            }
            best
        }
    }
}

#[test]
fn solve_agrees_with_trying_every_packing() {
    let pools: Vec<Vec<(usize, usize)>> = vec![
        vec![(3, 2), (2, 1)],
        vec![(10, 5), (30, 10), (20, 15)],
        vec![(7, 4), (9, 5), (4, 3)],
        vec![(1, 1)],
        vec![(5, 7), (11, 13), (2, 3), (17, 19)],
        vec![(6, 6), (6, 6)],
    ];
    for pool in pools {
        for capacity in 0..40usize {
            let items = pool
                .iter()
                .enumerate()
                .map(|(k, &(value, weight))| item(k, value, weight))
                .collect();
            let ukp = UnboundedKnapsack::new(items, capacity);
            assert_eq!(ukp.solve(), Ok(exhaustive(&pool, capacity)), "{:?} {}", pool, capacity);
        }
    }
}

#[test]
fn solve_does_not_depend_on_the_order_given() {
    let a = UnboundedKnapsack::new(vec![item(0, 7, 4), item(1, 9, 5), item(2, 4, 3)], 23);
    let b = UnboundedKnapsack::new(vec![item(0, 4, 3), item(1, 7, 4), item(2, 9, 5)], 23);
    let c = UnboundedKnapsack { items: vec![item(0, 4, 3), item(1, 9, 5), item(2, 7, 4)], capacity: 23 };
    assert_eq!(a.solve(), b.solve());
    assert_eq!(a.solve(), c.solve());
}

#[test]
fn lower_bound_agrees_with_its_definition() {
    for value in 0..6usize {
        for weight in 0..6usize {
            for setup_cost in 0..14usize {
                for capacity in 0..25usize {
                    let it = ItemWithSetup::new(0, value, weight, setup_cost, 0);
                    // The least count that repays the setup cost, looked for one by one.
                    let least = (1..=setup_cost + 1).find(|&count| count * value > setup_cost);
                    let expected = match least {
                        Some(count) if weight * count <= capacity => Some(count),
                        _ => None,
                    };
                    assert_eq!(lower_bound(&it, capacity), expected);
                    // No count fits and repays where the bound is missing.
                    if expected.is_none() {
                        for count in 1..40usize {
                            assert!(!(count * value > setup_cost && weight * count <= capacity));
                        }
                    }
                }
            }
        }
    }
}
