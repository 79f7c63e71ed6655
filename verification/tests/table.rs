use search_agents::problem::{GoalTestFn, PathCostFn, Problem, StateActionsMap, TransitionFn, UniformPathCost, PathCostSource};
use search_agents::search::{breadth_first_search, uniform_cost_search};
use std::collections::HashMap;

/// From each state the actions are the states next to it.
fn table() -> HashMap<u64, Vec<u64>> {
    let mut next = HashMap::new();
    next.insert(1, vec![2, 3]);
    next.insert(2, vec![4]);
    next.insert(3, vec![4, 5]);
    next.insert(4, vec![]);
    next.insert(6, vec![1, 1, 2]);
    next.insert(7, vec![5, 3, 5, 3, 3, 9, 5]);
    next
}

#[test]
fn a_table_gives_the_actions_of_the_states_it_holds() {
    let next = table();
    assert_eq!(next.actions(&1), vec![2, 3]);
    assert_eq!(next.actions(&3), vec![4, 5]);
    assert_eq!(next.actions(&4), vec![]);
    assert_eq!(next.actions(&5), vec![]);
    assert_eq!(next.actions(&77), vec![]);
}

#[test]
fn an_action_that_the_table_lists_twice_is_open_once() {
    let next = table();
    assert_eq!(next.actions(&6), vec![1, 2]);
    assert_eq!(next.actions(&6).len(), 2);
    assert_eq!(next.actions(&7), vec![5, 3, 9]);
}

#[test]
fn a_search_over_a_table() {
    let found = breadth_first_search(Problem {
        initial_state: 1,
        actions: table(),
        transition_model: TransitionFn::from_fn(|_: &u64, to: &u64| *to),
        goal: GoalTestFn::from_fn(|s: &u64| *s == 5),
        path_cost: PathCostFn::from_fn(|_: &u64, to: &u64| *to as isize),
    });
    assert_eq!(found, Some(vec![3, 5]));
    let found = uniform_cost_search(Problem {
        initial_state: 1,
        actions: table(),
        transition_model: TransitionFn::from_fn(|_: &u64, to: &u64| *to),
        goal: GoalTestFn::from_fn(|s: &u64| *s == 4),
        path_cost: PathCostFn::from_fn(|_: &u64, to: &u64| *to as isize),
    });
    assert_eq!(found, Some(vec![2, 4]));
}

#[test]
fn every_action_costs_one_under_the_uniform_cost() {
    let cost: UniformPathCost<u64, u64, isize> = UniformPathCost::default();
    assert_eq!(cost.cost(&1, &2), 1);
    assert_eq!(cost.cost(&9, &0), 1);
}
