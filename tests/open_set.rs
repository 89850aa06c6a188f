use allcolors::open_set::OpenSet;
use rand::rngs::StdRng;
use rand::SeedableRng;

#[test]
fn random_removals_shrink_by_one_and_never_repeat() {
    let mut rng = StdRng::seed_from_u64(7);
    let mut set = OpenSet::new_full(50);
    let mut seen = Vec::new();
    for k in 0..50 {
        assert_eq!(set.len(), 50 - k);
        let x = set.remove_random(&mut rng).unwrap();
        assert!(x < 50);
        assert!(!seen.contains(&x));
        assert!(!set.contains(x));
        seen.push(x);
    }
    assert_eq!(set.len(), 0);
    assert_eq!(set.remove_random(&mut rng), None);
    assert_eq!(set.len(), 0);
}

#[test]
fn removing_an_absent_value_changes_nothing() {
    let mut set = OpenSet::new_full(10);
    assert!(set.remove_value(4));
    assert_eq!(set.len(), 9);
    assert!(!set.remove_value(4));
    assert_eq!(set.len(), 9);
    assert!(!set.remove_value(10));
    assert!(!set.remove_value(usize::MAX - 1));
    assert_eq!(set.len(), 9);
    for x in 0..10 {
        assert_eq!(set.contains(x), x != 4);
    }
}

#[test]
fn mixed_removals_keep_membership_exact() {
    let mut rng = StdRng::seed_from_u64(1);
    let mut set = OpenSet::new_full(20);
    let mut gone = vec![false; 20];
    for x in [3usize, 19, 0, 7] {
        assert!(set.remove_value(x));
        gone[x] = true;
    }
    for _ in 0..6 {
        let x = set.remove_random(&mut rng).unwrap();
        assert!(!gone[x]);
        gone[x] = true;
    }
    assert_eq!(set.len(), 10);
    for x in 0..20 {
        assert_eq!(set.contains(x), !gone[x]);
    }
}

#[test]
fn empty_set_yields_nothing() {
    let mut rng = StdRng::seed_from_u64(0);
    let mut set = OpenSet::new_full(0);
    assert_eq!(set.len(), 0);
    assert_eq!(set.remove_random(&mut rng), None);
    assert!(!set.remove_value(0));
}
