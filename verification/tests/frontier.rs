use graph::frontier::Frontier;

#[test]
fn empty_frontier_gives_nothing() {
    let mut frontier: Frontier<char> = Frontier::new();
    assert!(frontier.is_empty());
    assert_eq!(frontier.len(), 0);
    assert_eq!(frontier.pop(), None);
}

#[test]
fn cheapest_leaves_first() {
    let mut frontier = Frontier::new();
    frontier.push(5, 'a');
    frontier.push(2, 'b');
    frontier.push(9, 'c');
    frontier.push(3, 'd');
    assert_eq!(frontier.len(), 4);
    assert_eq!(frontier.pop(), Some((2, 'b')));
    assert_eq!(frontier.pop(), Some((3, 'd')));
    assert_eq!(frontier.pop(), Some((5, 'a')));
    assert_eq!(frontier.pop(), Some((9, 'c')));
    assert_eq!(frontier.pop(), None);
}

#[test]
fn equal_priorities_leave_in_order_of_arrival() {
    let mut frontier = Frontier::new();
    frontier.push(1, 'x');
    frontier.push(0, 'a');
    frontier.push(1, 'y');
    frontier.push(0, 'b');
    frontier.push(1, 'z');
    let mut out = Vec::new();
    while let Some((_, item)) = frontier.pop() {
        out.push(item);
    }
    assert_eq!(out, vec!['a', 'b', 'x', 'y', 'z']);
}
