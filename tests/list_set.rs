use conc_blocks::list_set::OrderedListSet;

fn collect(set: &OrderedListSet<i32>) -> Vec<i32> {
    let mut it = set.iter();
    let mut out = Vec::new();
    while let Some(v) = it.next() {
        out.push(*v);
    }
    out
}

#[test]
fn ordered_insert_remove() {
    let mut set = OrderedListSet::new();
    for v in [5, 3, 1, 4, 2] {
        assert_eq!(set.insert(v), Ok(()));
    }
    assert_eq!(collect(&set), vec![1, 2, 3, 4, 5]);
    assert_eq!(set.remove(&3), Ok(3));
    assert_eq!(collect(&set), vec![1, 2, 4, 5]);
    assert_eq!(set.remove(&3), Err(()));
    assert_eq!(set.insert(3), Ok(()));
    assert_eq!(collect(&set), vec![1, 2, 3, 4, 5]);
}

#[test]
fn duplicate_insert_returns_key() {
    let mut set = OrderedListSet::new();
    assert_eq!(set.insert(7), Ok(()));
    assert_eq!(set.insert(7), Err(7));
    assert!(set.contains(&7));
    assert!(!set.contains(&8));
}

#[test]
fn empty_set_edges() {
    let mut set: OrderedListSet<i32> = OrderedListSet::new();
    assert!(!set.contains(&0));
    assert_eq!(set.remove(&0), Err(()));
    assert!(collect(&set).is_empty());
    assert_eq!(set.insert(10), Ok(()));
    assert_eq!(set.insert(0), Ok(()));
    assert_eq!(set.insert(20), Ok(()));
    assert_eq!(set.remove(&0), Ok(0));
    assert_eq!(set.remove(&20), Ok(20));
    assert_eq!(set.remove(&10), Ok(10));
    assert!(collect(&set).is_empty());
}

#[test]
fn iteration_stays_ascending() {
    let mut set = OrderedListSet::new();
    for v in [9, -3, 14, 0, 7, 7, -3, 100, 2] {
        let _ = set.insert(v);
    }
    let _ = set.remove(&14);
    let seen = collect(&set);
    assert_eq!(seen, vec![-3, 0, 2, 7, 9, 100]);
    assert!(seen.windows(2).all(|w| w[0] < w[1]));
}

#[test]
fn iterator_stays_exhausted() {
    let mut set = OrderedListSet::default();
    assert_eq!(set.insert(1), Ok(()));
    let mut it = set.iter();
    assert_eq!(it.next(), Some(&1));
    assert_eq!(it.next(), None);
    assert_eq!(it.next(), None);
}
