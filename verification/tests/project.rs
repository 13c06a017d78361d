use ranker::bitmask::BitMask;
use ranker::project::{Project, UNRATED};

fn names(list: &[&str]) -> Vec<String> {
    list.iter().map(|s| s.to_string()).collect()
}

fn item_names(p: &Project) -> Vec<String> {
    p.items.iter().map(|(n, _)| n.clone()).collect()
}

#[test]
fn an_empty_project_is_well_formed() {
    let p = Project::empty("p".to_string());
    assert_eq!(p.name, "p");
    assert!(p.items.is_empty());
    assert!(p.bitmasks.is_empty());
    assert!(p.results.is_empty());
    assert_eq!(p.total_ratings, 0);
    assert_eq!(p.num_rated_items, 0);
    assert!(p.is_well_formed());
}

#[test]
fn initializing_an_empty_project_takes_the_items_in_order() {
    let mut p = Project::empty("p".to_string());
    assert!(p.initialize(names(&["a", "b", "c"])));
    assert_eq!(item_names(&p), names(&["a", "b", "c"]));
    assert!(p.items.iter().all(|(_, r)| *r == UNRATED));
    let expected: Vec<BitMask> = vec![vec![0b001].into(), vec![0b010].into(), vec![0b100].into()];
    assert_eq!(p.bitmasks, expected);
    let cleared: Vec<BitMask> = vec![vec![0].into(), vec![0].into(), vec![0].into()];
    assert_eq!(p.results, cleared);
    assert_eq!(p.num_rated_items, 0);
    assert_eq!(p.total_ratings, 3);
    assert!(p.is_well_formed());
}

#[test]
fn initializing_drops_missing_items_and_appends_new_ones() {
    let mut p = Project::empty("p".to_string());
    assert!(p.initialize(names(&["a", "b", "c"])));
    p.items[2].1 = 1200.0f32.to_bits();
    p.bitmasks[0].set_bit(2);
    p.bitmasks[2].set_bit(0);
    p.results[2].set_bit(0);
    p.num_rated_items = 1;
    assert!(p.sync_fits(&names(&["a", "c", "d"])));
    assert!(p.initialize(names(&["a", "c", "d"])));
    assert_eq!(item_names(&p), names(&["a", "c", "d"]));
    assert_eq!(p.items[0].1, UNRATED);
    assert_eq!(p.items[1].1, 1200.0f32.to_bits());
    assert_eq!(p.items[2].1, UNRATED);
    let expected: Vec<BitMask> = vec![vec![0b011].into(), vec![0b011].into(), vec![0b100].into()];
    assert_eq!(p.bitmasks, expected);
    let results: Vec<BitMask> = vec![vec![0].into(), vec![0b001].into(), vec![0].into()];
    assert_eq!(p.results, results);
    assert_eq!(p.num_rated_items, 1);
    assert_eq!(p.total_ratings, 3);
    assert!(p.is_well_formed());
}

#[test]
fn syncing_with_its_own_names_changes_nothing() {
    let mut p = Project::empty("p".to_string());
    assert!(p.initialize(names(&["a", "b", "c", "d"])));
    p.bitmasks[1].set_bit(3);
    p.bitmasks[3].set_bit(1);
    p.results[3].set_bit(1);
    p.num_rated_items = 1;
    p.items[3].1 = 990.5f32.to_bits();
    let items_before = p.items.clone();
    let bitmasks_before = p.bitmasks.clone();
    let results_before = p.results.clone();
    assert!(p.initialize(item_names(&p)));
    assert_eq!(p.items, items_before);
    assert_eq!(p.bitmasks, bitmasks_before);
    assert_eq!(p.results, results_before);
    assert_eq!(p.num_rated_items, 1);
    assert_eq!(p.total_ratings, 6);
}

#[test]
fn initializing_with_no_names_empties_the_project() {
    let mut p = Project::empty("p".to_string());
    assert!(p.initialize(names(&["a", "b"])));
    assert!(p.initialize(Vec::new()));
    assert!(p.items.is_empty());
    assert!(p.bitmasks.is_empty());
    assert!(p.results.is_empty());
    assert_eq!(p.total_ratings, 0);
    assert_eq!(p.num_rated_items, 0);
}

#[test]
fn added_items_may_come_in_any_order_but_all_come() {
    let mut p = Project::empty("p".to_string());
    assert!(p.initialize(names(&["a"])));
    assert!(p.initialize(names(&["a", "b", "c", "d"])));
    assert_eq!(p.items[0].0, "a");
    let mut added: Vec<String> = item_names(&p)[1..].to_vec();
    added.sort();
    assert_eq!(added, names(&["b", "c", "d"]));
    for i in 0..4 {
        for k in 0..4u16 {
            assert_eq!(p.bitmasks[i].check_bit(k), i as u16 == k);
        }
    }
    assert_eq!(p.total_ratings, 6);
    assert_eq!(p.num_rated_items, 0);
}

#[test]
fn reset_forgets_every_comparison() {
    let mut p = Project::empty("p".to_string());
    assert!(p.initialize(names(&["a", "b", "c"])));
    p.bitmasks[0].set_bit(1);
    p.bitmasks[1].set_bit(0);
    p.results[0].set_bit(1);
    p.num_rated_items = 1;
    p.reset_bitmasks_and_results();
    let expected: Vec<BitMask> = vec![vec![0b001].into(), vec![0b010].into(), vec![0b100].into()];
    assert_eq!(p.bitmasks, expected);
    let cleared: Vec<BitMask> = vec![vec![0].into(), vec![0].into(), vec![0].into()];
    assert_eq!(p.results, cleared);
    assert_eq!(p.num_rated_items, 0);
    assert_eq!(p.total_ratings, 3);
}

#[test]
fn loading_without_matrices_rebuilds_them() {
    let items = vec![("x".to_string(), UNRATED), ("y".to_string(), 1000.0f32.to_bits())];
    let p = Project::from_cache("q".to_string(), items.clone(), Vec::new(), Vec::new()).unwrap();
    assert_eq!(p.name, "q");
    assert_eq!(p.items, items);
    let expected: Vec<BitMask> = vec![vec![0b01].into(), vec![0b10].into()];
    assert_eq!(p.bitmasks, expected);
    let cleared: Vec<BitMask> = vec![vec![0].into(), vec![0].into()];
    assert_eq!(p.results, cleared);
    assert_eq!(p.num_rated_items, 0);
    assert_eq!(p.total_ratings, 1);
    assert!(p.is_well_formed());
}

#[test]
fn loading_counts_the_compared_pairs() {
    let items = vec![
        ("x".to_string(), UNRATED),
        ("y".to_string(), UNRATED),
        ("z".to_string(), UNRATED),
    ];
    let bitmasks: Vec<BitMask> = vec![vec![0b011].into(), vec![0b011].into(), vec![0b100].into()];
    let results: Vec<BitMask> = vec![vec![0b010].into(), vec![0].into(), vec![0].into()];
    let p = Project::from_cache("q".to_string(), items, bitmasks.clone(), results.clone()).unwrap();
    assert_eq!(p.bitmasks, bitmasks);
    assert_eq!(p.results, results);
    assert_eq!(p.num_rated_items, 1);
    assert_eq!(p.total_ratings, 3);
    assert!(p.is_well_formed());
}

#[test]
fn loading_fails_when_rows_lack_their_own_bit() {
    let items = vec![("x".to_string(), UNRATED), ("y".to_string(), UNRATED)];
    let bitmasks: Vec<BitMask> = vec![vec![0].into(), vec![0].into()];
    let results: Vec<BitMask> = vec![vec![0].into(), vec![0].into()];
    assert!(Project::from_cache("q".to_string(), items, bitmasks, results).is_none());
}

#[test]
fn an_asymmetric_matrix_is_not_well_formed() {
    let items = vec![("x".to_string(), UNRATED), ("y".to_string(), UNRATED)];
    let bitmasks: Vec<BitMask> = vec![vec![0b11].into(), vec![0b10].into()];
    let results: Vec<BitMask> = vec![vec![0].into(), vec![0].into()];
    let p = Project::from_cache("q".to_string(), items, bitmasks, results).unwrap();
    assert!(!p.is_well_formed());
}
