use kyuko_bot::util::{CarryingUpIterator, MergedIterator};

#[test]
fn carrying_up_iter() {
    let a0 = vec![1, 2];
    let a1 = vec!['x', 'y'];
    let a2 = vec!['A', 'B', 'C'];

    let mut iter = CarryingUpIterator::new(a0, a1, a2).unwrap();

    assert_eq!((1, 'x', 'A'), iter.next());
    assert_eq!((1, 'x', 'B'), iter.next());
    assert_eq!((1, 'x', 'C'), iter.next());

    assert_eq!((1, 'y', 'A'), iter.next());
    assert_eq!((1, 'y', 'B'), iter.next());
    assert_eq!((1, 'y', 'C'), iter.next());

    assert_eq!((2, 'x', 'A'), iter.next());
    assert_eq!((2, 'x', 'B'), iter.next());
    assert_eq!((2, 'x', 'C'), iter.next());

    assert_eq!((2, 'y', 'A'), iter.next());
    assert_eq!((2, 'y', 'B'), iter.next());
    assert_eq!((2, 'y', 'C'), iter.next());

    assert_eq!((1, 'x', 'A'), iter.next());
    assert_eq!((1, 'x', 'B'), iter.next());
}

#[test]
fn carrying_up_iter_empty_dimension() {
    assert!(CarryingUpIterator::<u32, u32, u32>::new(vec![], vec![1], vec![2]).is_none());
    assert!(CarryingUpIterator::<u32, u32, u32>::new(vec![1], vec![], vec![2]).is_none());
    assert!(CarryingUpIterator::<u32, u32, u32>::new(vec![1], vec![2], vec![]).is_none());
}

#[test]
fn merged_iter() {
    let a0 = vec![1i64, 4, 7, 10];
    let a1 = vec![3i64, 4, 5, 6];
    let a2 = vec![2i64, 5, 8, 11];

    let mut it = MergedIterator::new(vec![a0, a1, a2]);
    let mut merged: Vec<i64> = Vec::new();
    while let Some(v) = it.next() {
        merged.push(v);
    }

    assert_eq!(vec![1, 2, 3, 4, 4, 5, 5, 6, 7, 8, 10, 11], merged);
}

#[test]
fn merged_iter_empty_sources() {
    let mut it = MergedIterator::new(vec![vec![], vec![]]);
    assert_eq!(None, it.next());
}
