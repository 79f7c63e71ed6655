use search_agents::search::frontier::{CostFrontier, FifoFrontier};
use search_agents::search::{EqOnNodeState, GenerationContext, Node};
use std::rc::Rc;

/// A node in the state `state`, reached from a root in the state `from` by the
/// action `action` at the cost `cost`.
fn node(state: u64, from: u64, action: u8, cost: isize) -> EqOnNodeState<u64, u8> {
    let parent = Rc::new(Node::from(from));
    EqOnNodeState::from(Rc::new(Node { state, ctx: Some(GenerationContext { parent, action, path_cost: cost }) }))
}

#[test]
fn first_in_first_out() {
    let mut frontier: FifoFrontier<u64, u8> = FifoFrontier::new();
    assert!(frontier.pop_front().is_none());
    frontier.push_back(node(5, 0, 1, 9));
    frontier.push_back(node(3, 0, 2, 1));
    frontier.push_back(node(8, 0, 3, 4));
    assert!(frontier.contains(5) && frontier.contains(3) && frontier.contains(8));
    assert!(!frontier.contains(0));
    let first = frontier.pop_front().expect("three wait");
    assert_eq!((first.key(), first.node().state, first.node().path_cost()), (5, 5, 9));
    assert!(!frontier.contains(5));
    assert!(frontier.contains(3));
    let second = frontier.pop_front().expect("two wait");
    assert_eq!(second.key(), 3);
    frontier.push_back(node(5, 0, 1, 9));
    let third = frontier.pop_front().expect("two wait");
    assert_eq!(third.key(), 8);
    let fourth = frontier.pop_front().expect("one waits");
    assert_eq!(fourth.key(), 5);
    assert!(frontier.pop_front().is_none());
    assert!(!frontier.contains(5));
}

#[test]
fn least_cost_first() {
    let mut frontier: CostFrontier<u64, u8> = CostFrontier::new();
    assert!(frontier.pop().is_none());
    assert!(!frontier.contains(5));
    frontier.push(node(5, 0, 1, 9));
    frontier.push(node(3, 0, 2, 1));
    frontier.push(node(8, 0, 3, 4));
    frontier.push(node(2, 0, 4, 7));
    assert!(frontier.contains(5) && frontier.contains(3) && frontier.contains(8));
    assert!(!frontier.contains(0));
    let order: Vec<(u64, isize)> = (0..4)
        .map(|_| {
            let least = frontier.pop().expect("a node waits");
            assert_eq!(least.key(), least.node().state);
            (least.key(), least.node().path_cost())
        })
        .collect();
    assert_eq!(order, vec![(3, 1), (8, 4), (2, 7), (5, 9)]);
    assert!(frontier.pop().is_none());
    assert!(!frontier.contains(3));
}

#[test]
fn a_cheaper_node_takes_the_place_of_the_one_that_waits() {
    let mut frontier: CostFrontier<u64, u8> = CostFrontier::new();
    frontier.push(node(5, 0, 1, 9));
    frontier.push(node(3, 0, 2, 4));
    assert!(frontier.improve(node(5, 7, 6, 2)));
    assert!(frontier.contains(5));
    let least = frontier.pop().expect("two wait");
    assert_eq!(least.key(), 5);
    assert_eq!(least.node().path_cost(), 2);
    assert_eq!(least.node().solution(), vec![6]);
    assert_eq!(least.node().ctx.as_ref().unwrap().parent.state, 7);
    let last = frontier.pop().expect("one waits");
    assert_eq!((last.key(), last.node().path_cost()), (3, 4));
    assert!(frontier.pop().is_none());
}

#[test]
fn a_node_that_is_no_cheaper_changes_nothing() {
    let mut frontier: CostFrontier<u64, u8> = CostFrontier::new();
    frontier.push(node(5, 0, 1, 9));
    frontier.push(node(3, 0, 2, 4));
    assert!(!frontier.improve(node(3, 7, 6, 4)));
    assert!(!frontier.improve(node(3, 7, 6, 12)));
    let least = frontier.pop().expect("two wait");
    assert_eq!((least.key(), least.node().path_cost()), (3, 4));
    assert_eq!(least.node().solution(), vec![2]);
    assert_eq!(least.node().ctx.as_ref().unwrap().parent.state, 0);
    let last = frontier.pop().expect("one waits");
    assert_eq!((last.key(), last.node().path_cost()), (5, 9));
}
