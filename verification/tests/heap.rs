use lazysort::heap::{Heap, Tree};

#[test]
fn add_test() {
    let mut heap = Heap::new(Ord::cmp);
    heap.add(1u64);
    heap.add(2u64);

    println!("{:?}", heap.size());
    assert_eq!(Some(1), heap.take());
    println!("{:?}", heap.size());
    assert_eq!(Some(2), heap.take());
    println!("{:?}", heap.size());
    assert_eq!(None, heap.take());
    println!("Finished *** {:?}", heap.size());
}

#[test]
fn other_test() {
    let mut heap = Heap::new(Ord::cmp);
    heap.add(10u64);
    heap.add(11u64);
    heap.add(12u64);
    heap.add(1u64);
    heap.add(2u64);
    heap.add(3u64);
    heap.add(20u64);

    println!("{:?}", heap.size());
    assert_eq!(Some(1), heap.take());
    println!("{:?}", heap.size());
    assert_eq!(Some(2), heap.take());
    println!("{:?}", heap.size());
    assert_eq!(Some(3), heap.take());
    println!("{:?}", heap.size());
    assert_eq!(Some(10), heap.take());
    println!("{:?}", heap.size());
    assert_eq!(Some(11), heap.take());
    println!("{:?}", heap.size());
    assert_eq!(Some(12), heap.take());
    println!("{:?}", heap.size());
    assert_eq!(Some(20), heap.take());
    println!("Finished *** {:?}", heap.size());
}

#[test]
fn tree_merge_keeps_smaller_root() {
    let mut a = Tree::new(5u64);
    assert_eq!(0, a.order());
    a.merge(Tree::new(3u64), Ord::cmp);
    assert_eq!(1, a.order());
    a.merge(Tree::new(9u64), Ord::cmp);
    assert_eq!(2, a.order());
    let printed = format!("{:?}", a);
    assert!(printed.contains("node: 3"));
}

#[test]
fn heap_of_nothing_gives_nothing() {
    let mut heap: Heap<u64, _> = Heap::new(Ord::cmp);
    assert_eq!(0, heap.size());
    assert_eq!(None, heap.take());
    assert_eq!(None, heap.take());
    assert_eq!(0, heap.size());
}

#[test]
fn size_counts_trees() {
    let mut heap = Heap::new(Ord::cmp);
    for x in [5u64, 3, 8, 1] {
        heap.add(x);
    }
    assert_eq!(4, heap.size());
    // the smallest is remembered while adding: taking it merges nothing
    assert_eq!(Some(1), heap.take());
    assert_eq!(3, heap.size());
    // now the trees are merged by order: 8, 3, 5 become one tree under 3
    assert_eq!(Some(3), heap.take());
    assert_eq!(Some(5), heap.take());
    assert_eq!(Some(8), heap.take());
    assert_eq!(0, heap.size());
}

#[test]
fn take_drains_in_ascending_order() {
    let input: Vec<u64> = vec![5, 1, 4, 1, 5, 9, 2, 6, 5, 3, 5, 8, 9, 7, 9, 3, 2, 3, 8, 4, 6];
    let mut heap = Heap::new(Ord::cmp);
    for x in input.iter() {
        heap.add(*x);
    }
    let mut out = Vec::new();
    while let Some(x) = heap.take() {
        out.push(x);
    }
    let mut expected = input;
    expected.sort();
    assert_eq!(expected, out);
}

#[test]
fn heap_by_reverse_comparator() {
    let mut heap = Heap::new(|a: &u64, b: &u64| b.cmp(a));
    for x in [2u64, 7, 1, 9] {
        heap.add(x);
    }
    assert_eq!(Some(9), heap.take());
    assert_eq!(Some(7), heap.take());
    assert_eq!(Some(2), heap.take());
    assert_eq!(Some(1), heap.take());
    assert_eq!(None, heap.take());
}

#[test]
fn add_after_take_remembers_the_first_tree() {
    let mut heap = Heap::new(Ord::cmp);
    heap.add(1u64);
    heap.add(2u64);
    heap.add(3u64);
    assert_eq!(Some(1), heap.take());
    // nothing is remembered now, so the next element added makes the heap
    // remember its first tree, which holds 3
    heap.add(0u64);
    assert_eq!(Some(3), heap.take());
    assert_eq!(Some(0), heap.take());
    assert_eq!(Some(2), heap.take());
    assert_eq!(None, heap.take());
}

#[test]
fn tree_from_element() {
    let t: Tree<u64> = Tree::from(7u64);
    assert_eq!(0, t.order());
    let u: Tree<u64> = 8u64.into();
    assert_eq!(0, u.order());
}
