use poker_abstraction::abstraction::{Abstraction, Node};

fn node(i: u32, r: u32, a: char, children: Vec<usize>) -> Node {
    Node { i, n: 0, r, t: 0, a, s0: 0, s1: 0, children }
}

fn sample() -> Abstraction {
    let tree = vec![
        node(500, 0, 'r', vec![1, 2]),
        node(300, 1, 'c', vec![3]),
        node(400, 2, 'b', vec![]),
        node(450, 3, 'f', vec![]),
    ];
    Abstraction::new(vec![4, 7, 9], vec![1, 2], vec![0, 5, 6, 8], tree)
}

#[test]
fn size_is_the_roots_last_row() {
    assert_eq!(sample().size(), 500);
}

#[test]
fn root_is_the_first_node() {
    let a = sample();
    assert_eq!(a.root().a, 'r');
    assert_eq!(a.root().children, vec![1, 2]);
}

#[test]
fn next_follows_the_action() {
    let a = sample();
    let first = a.next(a.root(), 0);
    assert_eq!(first.a, 'c');
    let second = a.next(a.root(), 1);
    assert_eq!(second.a, 'b');
    assert_eq!(a.next(first, 0).a, 'f');
}

#[test]
fn index_before_the_flop_counts_down_by_the_hand() {
    let a = sample();
    assert!(a.indexable(168, a.root()));
    assert_eq!(a.index(168, a.root()), 500 - 168 - 1);
    assert_eq!(a.index(0, a.root()), 499);
    assert_eq!(a.index(499, a.root()), 0);
}

#[test]
fn index_after_the_flop_counts_down_by_the_cluster() {
    let a = sample();
    let flop = a.next(a.root(), 0);
    assert_eq!(a.index(1, flop), 300 - 7 - 1);
    let turn = a.next(a.root(), 1);
    assert_eq!(a.index(1, turn), 400 - 2 - 1);
    let river = a.next(flop, 0);
    assert_eq!(a.index(3, river), 450 - 8 - 1);
}

#[test]
fn indexable_refuses_what_has_no_row() {
    let a = sample();
    assert!(!a.indexable(500, a.root()));
    let flop = a.next(a.root(), 0);
    assert!(a.indexable(2, flop));
    assert!(!a.indexable(3, flop));
    assert!(!a.indexable(0, &node(4, 1, 'x', vec![])));
    assert!(!a.indexable(0, &node(100, 4, 'x', vec![])));
}
