use mazegen::disjoint_set::DisjointSet;

#[test]
fn test_constructor() {
    let ds = DisjointSet::new(2);
    assert_eq!(ds.num_sets(), 2);
    assert_eq!(ds.find(0), 0);
    assert_eq!(ds.find(1), 1);
    assert!(ds.find(0) != ds.find(1));
    assert!(ds.is_singleton(0));
    assert!(ds.is_singleton(1));
}

#[test]
fn test_root_of() {
    let mut ds = DisjointSet::new(5);
    ds.join(0, 3);
    ds.join(1, 2);
    ds.join(0, 1);
    assert_eq!(
        format!("{:?}", ds),
        "DisjointSet { entries: [Root { size: 4 }, Link { index: 0 }, Link { index: 1 }, \
         Link { index: 0 }, Root { size: 1 }], num_sets: 2 }"
    );
    assert_eq!(ds.num_sets(), 2);
    assert_eq!(ds.num_members(0), 4);
    assert_eq!(ds.num_members(4), 1);
    assert_eq!(ds.depth(0), 0);
    assert_eq!(ds.depth(1), 1);
    assert_eq!(ds.depth(2), 2);
    assert_eq!(ds.depth(3), 1);
    assert_eq!(ds.depth(4), 0);

    assert_eq!(ds.find(0), 0);
    assert_eq!(ds.find(1), 0);
    assert_eq!(ds.find(2), 0);
    assert_eq!(ds.find(3), 0);
    assert_eq!(ds.find(4), 4);
}

#[test]
fn test_join() {
    let mut ds = DisjointSet::new(4);
    ds.join(0, 1);
    println!("{:?}", ds);
    ds.join(2, 3);
    println!("{:?}", ds);

    assert!(ds.find(0) == ds.find(1));
    assert!(ds.find(1) != ds.find(2));
    assert!(ds.find(2) == ds.find(3));
    assert!(ds.find(3) != ds.find(0));
    assert!(ds.find(0) != ds.find(2));
    assert!(ds.find(1) != ds.find(3));
    assert_eq!(ds.num_sets(), 2);
    assert_eq!(ds.num_members(0), 2);
    assert_eq!(ds.num_members(1), 2);
    assert_eq!(ds.num_members(2), 2);
    assert_eq!(ds.num_members(3), 2);

    ds.join(3, 1);
    assert!(ds.find(0) == ds.find(1));
    assert!(ds.find(1) == ds.find(2));
    assert!(ds.find(2) == ds.find(3));
    assert!(ds.find(3) == ds.find(0));
    assert!(ds.find(0) == ds.find(2));
    assert!(ds.find(1) == ds.find(3));
    assert_eq!(ds.num_sets(), 1);
    assert_eq!(ds.num_members(0), 4);
    assert_eq!(ds.num_members(1), 4);
    assert_eq!(ds.num_members(2), 4);
    assert_eq!(ds.num_members(3), 4);

    println!("{:?}", ds);
    for i in 0..ds.len() {
        println!("{}: {}", i, ds.depth(i));
    }
}

#[test]
fn test_join2() {
    let mut ds = DisjointSet::new(8);
    ds.join(0, 1);
    ds.join(2, 3);
    ds.join(4, 5);
    ds.join(6, 7);
    ds.join(1, 2);
    ds.join(4, 6);
    ds.join(0, 4);

    for i in 0..ds.len() {
        println!("{} ", ds.depth(i));
    }
    println!();
}

#[test]
fn new_set_has_one_root_per_index() {
    let ds = DisjointSet::new(6);
    assert_eq!(ds.len(), 6);
    assert_eq!(ds.num_sets(), 6);
    assert_eq!(ds.values(), vec![0, 1, 2, 3, 4, 5]);
    for i in 0..6 {
        assert_eq!(ds.num_members(i), 1);
        assert_eq!(ds.depth(i), 0);
    }
}

#[test]
fn empty_set_has_no_sets() {
    let ds = DisjointSet::new(0);
    assert_eq!(ds.len(), 0);
    assert_eq!(ds.num_sets(), 0);
    assert_eq!(ds.values(), Vec::<usize>::new());
}

#[test]
fn join_makes_find_agree_and_counts_down() {
    let mut ds = DisjointSet::new(5);
    ds.join(1, 3);
    assert_eq!(ds.find(1), ds.find(3));
    assert_eq!(ds.num_sets(), 4);
    ds.join(3, 4);
    assert_eq!(ds.find(1), ds.find(4));
    assert_eq!(ds.num_sets(), 3);
    assert_eq!(ds.num_members(4), 3);
    assert!(!ds.is_singleton(1));
    assert!(ds.is_singleton(0));
    assert!(ds.is_singleton(2));
}

#[test]
fn join_twice_is_join_once() {
    let mut once = DisjointSet::new(6);
    once.join(0, 1);
    once.join(2, 3);
    once.join(1, 3);
    let mut twice = once.clone();
    twice.join(1, 3);
    assert_eq!(once, twice);
    twice.join(3, 1);
    assert_eq!(once, twice);
    assert_eq!(twice.num_sets(), 3);
}

#[test]
fn join_with_itself_changes_nothing() {
    let mut ds = DisjointSet::new(3);
    let before = ds.clone();
    ds.join(2, 2);
    assert_eq!(ds, before);
}

#[test]
fn larger_set_keeps_its_root_and_ties_go_to_the_first() {
    let mut ds = DisjointSet::new(4);
    // A tie: the root of the first argument survives.
    ds.join(2, 1);
    assert_eq!(ds.find(1), 2);
    assert_eq!(ds.find(2), 2);
    // A set of one joins a set of two: the root of the larger one survives.
    ds.join(0, 1);
    assert_eq!(ds.find(0), 2);
    assert_eq!(ds.values(), vec![2, 2, 2, 3]);
    assert_eq!(ds.num_members(3), 1);
    assert_eq!(ds.num_members(0), 3);
}

#[test]
fn join_compresses_both_paths() {
    let mut ds = DisjointSet::new(8);
    ds.join(0, 1);
    ds.join(2, 3);
    ds.join(0, 2);
    ds.join(4, 5);
    ds.join(6, 7);
    ds.join(4, 6);
    // 3 hangs two links below 0, and 7 two links below 4.
    assert_eq!(ds.depth(3), 2);
    assert_eq!(ds.depth(7), 2);
    ds.join(3, 7);
    assert_eq!(ds.find(3), 0);
    assert_eq!(ds.find(7), 0);
    assert_eq!(ds.depth(3), 1);
    assert_eq!(ds.depth(7), 1);
    assert_eq!(ds.depth(6), 1);
    assert_eq!(ds.depth(4), 1);
    assert_eq!(ds.depth(5), 2);
    assert_eq!(ds.num_members(5), 8);
    assert_eq!(ds.num_sets(), 1);
}

#[test]
fn values_are_the_roots() {
    let mut ds = DisjointSet::new(4);
    ds.join(3, 2);
    let values = ds.values();
    assert_eq!(values.len(), 4);
    for i in 0..4 {
        assert_eq!(values[i], ds.find(i));
    }
    assert_eq!(values, vec![0, 1, 3, 3]);
}

#[test]
fn find_agrees_exactly_on_what_the_joins_connect() {
    // A naive labelling of the same joins: every index carries the label of its set.
    let n = 40;
    let mut ds = DisjointSet::new(n);
    let mut label: Vec<usize> = (0..n).collect();
    let mut sets = n;
    let mut x: u64 = 12345;
    for _ in 0..60 {
        x = x.wrapping_mul(6364136223846793005).wrapping_add(1442695040888963407);
        let a = (x >> 33) as usize % n;
        x = x.wrapping_mul(6364136223846793005).wrapping_add(1442695040888963407);
        let b = (x >> 33) as usize % n;
        let depths = (ds.depth(a), ds.depth(b));
        ds.join(a, b);
        let (from, to) = (label[b], label[a]);
        if from != to {
            sets -= 1;
            for l in label.iter_mut() {
                if *l == from {
                    *l = to;
                }
            }
            // Two sets became one, and both paths were compressed.
            assert!(ds.depth(a) <= 1);
            assert!(ds.depth(b) <= 1);
        } else {
            assert_eq!((ds.depth(a), ds.depth(b)), depths);
        }
        assert_eq!(ds.num_sets(), sets);
        assert_eq!(ds.find(a), ds.find(b));
    }
    for i in 0..n {
        for j in 0..n {
            assert_eq!(ds.find(i) == ds.find(j), label[i] == label[j]);
        }
        let members = (0..n).filter(|k| label[*k] == label[i]).count();
        assert_eq!(ds.num_members(i), members);
        assert_eq!(ds.is_singleton(i), members == 1);
        assert_eq!(ds.find(ds.find(i)), ds.find(i));
    }
}
