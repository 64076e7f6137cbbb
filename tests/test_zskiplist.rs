use curly_giggle::level_generator::{
    generate_random_level, level_from_flips, DefaultLevelGenerator, LevelConfigError,
    LevelGenerator,
};
use curly_giggle::score::Score;
use curly_giggle::zskiplist::ZSkipList;

fn sc(x: f64) -> Score {
    Score::from_bits(x.to_bits())
}

fn list_of(pairs: &[(f64, i64)]) -> ZSkipList {
    let mut list = ZSkipList::zsl_create();
    for &(s, v) in pairs {
        list.zsl_insert(sc(s), v);
    }
    list
}

#[test]
fn test_zsl_create() {
    let list: ZSkipList = ZSkipList::zsl_create();
    assert_eq!(list.get_len(), 0);
}

#[test]
fn test_insert_and_contains() {
    let mut list = ZSkipList::zsl_create();

    list.zsl_insert(sc(1.0), 1);
    list.zsl_insert(sc(2.0), 2);
    list.zsl_insert(sc(3.0), 3);

    assert_eq!(list.contains(&1), true);
    assert_eq!(list.contains(&2), true);
    assert_eq!(list.contains(&3), true);
    assert_eq!(list.contains(&4), false);
}

#[test]
fn test_zsl_delete() {
    let mut list = ZSkipList::zsl_create();

    list.zsl_insert(sc(1.0), 1);
    list.zsl_insert(sc(2.0), 2);
    list.zsl_insert(sc(3.0), 3);

    assert_eq!(list.zsl_delete(&2), Some(2));
    assert_eq!(list.zsl_delete(&2), None);
    assert_eq!(list.contains(&2), false);
}

#[test]
fn test_iter() {
    let mut list: ZSkipList = ZSkipList::zsl_create();
    for i in 0..100 {
        list.zsl_insert(sc(1.0), i);
    }

    let mut x = 0;
    list.iter().iter().for_each(|i| {
        assert_eq!(i, &x);
        x += 1;
    });
    assert_eq!(x, 100);
}

#[test]
fn test_empty_list() {
    let mut list = ZSkipList::zsl_create();
    assert_eq!(list.contains(&1), false);
    assert_eq!(list.zsl_delete(&1), None);
    let mut iter = list.iter().into_iter();
    assert_eq!(iter.next(), None);
}

#[test]
fn test_insert_duplicates() {
    let mut list = ZSkipList::zsl_create();
    list.zsl_insert(sc(1.0), 1);
    list.zsl_insert(sc(2.0), 2);
    list.zsl_insert(sc(3.0), 3);

    assert_eq!(list.contains(&1), true);
    assert_eq!(list.zsl_delete(&1), Some(1));
    assert_eq!(list.get_len(), 2);
    assert_eq!(list.contains(&1), false);
    assert_eq!(list.contains(&2), true);
    assert_eq!(list.contains(&3), true);

    assert_eq!(list.zsl_delete(&1), None);
    assert_eq!(list.zsl_delete(&2), Some(2));
    assert_eq!(list.contains(&2), false);

    assert_eq!(list.zsl_delete(&3), Some(3));
    assert_eq!(list.contains(&3), false);
}

#[test]
fn test_zsl_get_rank() {
    let mut list = ZSkipList::zsl_create();
    list.zsl_insert(sc(1.0), 1);
    list.zsl_insert(sc(2.0), 2);
    list.zsl_insert(sc(3.0), 3);

    assert_eq!(list.zsl_get_rank(sc(1.0), 1), Some(0));
    assert_eq!(list.zsl_get_rank(sc(2.0), 2), Some(1));
    assert_eq!(list.zsl_get_rank(sc(3.0), 3), Some(2));
    assert_eq!(list.zsl_get_rank(sc(4.0), 4), None);
}

// Ranks are zero-based, as `zsl_get_rank` reports them.
#[test]
fn test_zsl_get_element_by_rank() {
    let mut list = ZSkipList::zsl_create();
    list.zsl_insert(sc(1.0), 1);
    list.zsl_insert(sc(2.0), 2);
    list.zsl_insert(sc(3.0), 3);

    assert_eq!(list.zsl_get_element_by_rank(0), Some(1));
    assert_eq!(list.zsl_get_element_by_rank(1), Some(2));
    assert_eq!(list.zsl_get_element_by_rank(2), Some(3));
    assert_eq!(list.zsl_get_element_by_rank(3), None);
    assert_eq!(list.zsl_get_element_by_rank(4), None);
}

#[test]
fn test_zsl_is_in_range() {
    let mut list = ZSkipList::zsl_create();
    list.zsl_insert(sc(1.0), 1);
    list.zsl_insert(sc(2.0), 2);
    list.zsl_insert(sc(3.0), 3);

    assert_eq!(list.zsl_is_in_range(sc(1.0), sc(3.0)), true);
    assert_eq!(list.zsl_is_in_range(sc(2.0), sc(4.0)), true);
    assert_eq!(list.zsl_is_in_range(sc(0.0), sc(0.9)), false);
    assert_eq!(list.zsl_is_in_range(sc(4.0), sc(5.0)), false);
}

#[test]
fn three_elements_scenario() {
    let list = list_of(&[(1.0, 1), (2.0, 2), (3.0, 3)]);
    assert_eq!(list.zsl_get_rank(sc(1.0), 1), Some(0));
    assert_eq!(list.zsl_get_rank(sc(3.0), 3), Some(2));
    assert_eq!(list.zsl_get_element_by_rank(1), Some(2));
    assert!(list.zsl_is_in_range(sc(1.0), sc(2.0)));
    assert!(!list.zsl_is_in_range(sc(4.0), sc(5.0)));
}

#[test]
fn delete_range_by_score_twenty() {
    let mut list = ZSkipList::zsl_create();
    for i in 0..20 {
        list.zsl_insert(sc(i as f64), i);
    }
    assert_eq!(list.zsl_delete_range_by_score(sc(1.0), sc(3.0)), 3);
    assert_eq!(list.get_len(), 17);
    assert!(!list.contains(&1) && !list.contains(&2) && !list.contains(&3));
    assert!(list.contains(&0) && list.contains(&4));
    assert_eq!(list.zsl_delete_range_by_score(sc(1.0), sc(3.0)), 0);
    assert_eq!(list.get_len(), 17);
    assert_eq!(list.zsl_delete_range_by_score(sc(2.0), sc(10.0)), 7);
    assert_eq!(list.zsl_delete_range_by_score(sc(21.0), sc(23.0)), 0);
    assert_eq!(list.iter(), vec![0, 11, 12, 13, 14, 15, 16, 17, 18, 19]);
}

#[test]
fn delete_range_by_rank_cases() {
    let mut list = ZSkipList::zsl_create();
    for i in 0..20 {
        list.zsl_insert(sc(i as f64), i);
    }
    assert_eq!(list.zsl_delete_range_by_rank(1, 3), 3);
    assert_eq!(list.iter()[..3], [0, 4, 5]);
    assert_eq!(list.zsl_delete_range_by_rank(2, 10), 9);
    assert_eq!(list.get_len(), 8);
    assert_eq!(list.zsl_delete_range_by_rank(21, 23), 0);
    assert_eq!(list.zsl_delete_range_by_rank(5, 2), 0);
    assert_eq!(list.zsl_delete_range_by_rank(6, 100), 2);
    assert_eq!(list.iter(), vec![0, 4, 14, 15, 16, 17]);
}

#[test]
fn length_counts_inserts_and_deletes() {
    let mut list = ZSkipList::zsl_create();
    for i in 0..30 {
        list.zsl_insert(sc((i % 7) as f64), i);
    }
    let mut removed = 0;
    for v in [3, 3, 8, 40, 29, 0] {
        if list.zsl_delete(&v).is_some() {
            removed += 1;
        }
    }
    assert_eq!(removed, 4);
    assert_eq!(list.get_len(), 26);
}

#[test]
fn rank_then_element_by_rank_round_trip() {
    let list = list_of(&[(5.0, 50), (1.0, 10), (3.0, 30), (3.0, 31), (-2.5, 7), (5.0, 49)]);
    for (s, v) in [(5.0, 50), (1.0, 10), (3.0, 30), (3.0, 31), (-2.5, 7), (5.0, 49)] {
        let r = list.zsl_get_rank(sc(s), v).unwrap();
        assert_eq!(list.zsl_get_element_by_rank(r), Some(v));
    }
    assert_eq!(list.iter(), vec![7, 10, 30, 31, 49, 50]);
}

#[test]
fn shuffled_scores_iterate_in_order() {
    let order = [7, 2, 9, 0, 5, 3, 8, 1, 6, 4];
    let mut list = ZSkipList::zsl_create();
    for &i in order.iter() {
        list.zsl_insert(sc(i as f64), i);
    }
    assert_eq!(list.iter(), (0..10).collect::<Vec<i64>>());
}

#[test]
fn contains_after_insert_and_delete() {
    let mut list = list_of(&[(1.0, 1), (2.0, 2)]);
    assert!(!list.contains(&9));
    list.zsl_insert(sc(0.5), 9);
    assert!(list.contains(&9));
    assert_eq!(list.zsl_delete(&9), Some(9));
    assert!(!list.contains(&9));
}

#[test]
fn delete_absent_keeps_length() {
    let mut list = list_of(&[(1.0, 1), (2.0, 2), (3.0, 3)]);
    assert_eq!(list.zsl_delete(&42), None);
    assert_eq!(list.get_len(), 3);
    assert_eq!(list.iter(), vec![1, 2, 3]);
}

#[test]
fn pop_front_drains() {
    let mut list = list_of(&[(3.0, 3), (1.0, 1), (2.0, 2)]);
    assert_eq!(list.pop_front(), Some(1));
    assert_eq!(list.pop_front(), Some(2));
    assert_eq!(list.pop_front(), Some(3));
    assert_eq!(list.pop_front(), None);
    assert_eq!(list.get_len(), 0);
    assert!(list.iter().is_empty());
}

#[test]
fn ranks_stay_right_after_deletes() {
    let mut list = ZSkipList::zsl_create();
    for i in 0..200 {
        list.zsl_insert(sc((i * 37 % 200) as f64), i * 37 % 200);
    }
    for i in (0..200).step_by(3) {
        assert_eq!(list.zsl_delete(&i), Some(i));
    }
    let values = list.iter();
    for (r, v) in values.iter().enumerate() {
        assert_eq!(list.zsl_get_rank(sc(*v as f64), *v), Some(r));
        assert_eq!(list.zsl_get_element_by_rank(r), Some(*v));
    }
    assert_eq!(values.len(), 133);
}

#[test]
fn first_and_last_in_range() {
    let list = list_of(&[(1.0, 1), (2.0, 2), (2.0, 3), (4.0, 4)]);
    assert_eq!(list.zsl_first_in_range(sc(1.5), sc(4.0)), Some(2));
    assert_eq!(list.zsl_last_in_range(sc(1.5), sc(3.0)), Some(3));
    assert_eq!(list.zsl_last_in_range(sc(0.0), sc(f64::INFINITY)), Some(4));
    assert_eq!(list.zsl_first_in_range(sc(2.5), sc(3.5)), None);
    assert_eq!(list.zsl_last_in_range(sc(2.5), sc(3.5)), None);
    assert_eq!(list.zsl_first_in_range(sc(5.0), sc(9.0)), None);
}

#[test]
fn negative_scores_and_zeros_order() {
    let list = list_of(&[(0.0, 1), (-1.0, 2), (-0.0, 0), (-100.5, 3), (2.0, 4)]);
    assert_eq!(list.iter(), vec![3, 2, 0, 1, 4]);
    assert!(list.zsl_is_in_range(sc(-0.0), sc(0.0)));
    assert_eq!(list.zsl_first_in_range(sc(-2.0), sc(-0.5)), Some(2));
}

#[test]
fn free_empties_and_allows_reuse() {
    let mut list = list_of(&[(1.0, 1), (2.0, 2)]);
    list.zsl_free();
    assert_eq!(list.get_len(), 0);
    list.zsl_free();
    list.zsl_insert(sc(1.0), 5);
    assert_eq!(list.iter(), vec![5]);
}

#[test]
fn level_policy_configuration() {
    assert_eq!(DefaultLevelGenerator::new(0, 1, 2).err(), Some(LevelConfigError::ZeroBound));
    assert_eq!(DefaultLevelGenerator::new(4, 0, 2).err(), Some(LevelConfigError::ProbabilityOutOfRange));
    assert_eq!(DefaultLevelGenerator::new(4, 2, 2).err(), Some(LevelConfigError::ProbabilityOutOfRange));
    let mut g = DefaultLevelGenerator::new(4, 1, 2).ok().unwrap();
    assert_eq!(g.level_bound(), 4);
    for _ in 0..100 {
        let l = g.random();
        assert!(1 <= l && l <= 4);
    }
    assert_eq!(g.level_from_draws(&vec![0, 0, 0, 0, 0]), 4);
    assert_eq!(g.level_from_draws(&vec![0, 1, 0]), 2);
    assert_eq!(g.level_from_draws(&vec![1]), 1);
    assert_eq!(g.level_from_draws(&vec![]), 1);
}

#[test]
fn custom_level_bound_list() {
    let g = DefaultLevelGenerator::new(2, 3, 4).ok().unwrap();
    let mut list = ZSkipList::with_level_generator(g);
    for i in 0..50 {
        list.zsl_insert(sc((50 - i) as f64), i);
    }
    assert_eq!(list.zsl_get_element_by_rank(0), Some(49));
    assert_eq!(list.zsl_get_rank(sc(1.0), 49), Some(0));
    assert_eq!(list.zsl_get_rank(sc(50.0), 0), Some(49));
}

#[test]
fn random_level_in_bounds() {
    for _ in 0..50 {
        let l = generate_random_level();
        assert!(1 <= l && l <= 16);
    }
}

#[test]
fn score_bits_round_trip() {
    let s = sc(-3.25);
    assert_eq!(s.to_bits(), (-3.25f64).to_bits());
    assert!(sc(-3.25).key() < sc(-1.0).key());
    assert!(sc(-1.0).key() < sc(0.0).key());
    assert_eq!(sc(-0.0).key(), sc(0.0).key());
    assert!(sc(0.0).key() < sc(1e-300).key());
    assert!(sc(1.0).key() < sc(f64::INFINITY).key());
}

#[test]
fn default_policy_bound() {
    let mut g = DefaultLevelGenerator::default();
    assert_eq!(g.level_bound(), 16);
    let l = g.random();
    assert!(1 <= l && l <= 16);
    let list = ZSkipList::zsl_create();
    assert_eq!(list.get_len(), 0);
}

#[test]
fn random_levels_vary() {
    let mut g = DefaultLevelGenerator::default();
    let mut above_one = false;
    let mut heads = false;
    for _ in 0..200 {
        if g.random() > 1 {
            above_one = true;
        }
        if generate_random_level() > 1 {
            heads = true;
        }
    }
    assert!(above_one);
    assert!(heads);
}

#[test]
fn level_counts_heads() {
    assert_eq!(level_from_flips(&vec![]), 1);
    assert_eq!(level_from_flips(&vec![1, 0, 1, 1, 0]), 4);
    assert_eq!(level_from_flips(&vec![0; 15]), 1);
    assert_eq!(level_from_flips(&vec![1; 15]), 16);
}

#[test]
fn pops_and_deletes_count_toward_length() {
    let mut list = list_of(&[(1.0, 1), (2.0, 2), (3.0, 3), (4.0, 4)]);
    assert_eq!(list.pop_front(), Some(1));
    assert_eq!(list.zsl_delete(&9), None);
    assert_eq!(list.zsl_delete(&3), Some(3));
    list.zsl_insert(sc(0.5), 5);
    assert_eq!(list.get_len(), 3);
    assert_eq!(list.iter(), vec![5, 2, 4]);
}

#[test]
fn equal_pairs_are_all_kept() {
    let mut list = ZSkipList::zsl_create();
    list.zsl_insert(sc(0.0), 5);
    list.zsl_insert(sc(-0.0), 5);
    list.zsl_insert(sc(0.0), 4);
    list.zsl_insert(sc(0.0), 5);
    assert_eq!(list.iter(), vec![4, 5, 5, 5]);
    assert_eq!(list.zsl_get_rank(sc(0.0), 5), Some(1));
    assert_eq!(list.zsl_delete(&5), Some(5));
    assert_eq!(list.iter(), vec![4, 5, 5]);
}
