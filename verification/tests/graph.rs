use search_agents::problem::{GoalTestFn, PathCostFn, Problem, StateActionsFn, TransitionFn};
use search_agents::search::{breadth_first_search, uniform_cost_search};

type Graph = &'static [(u64, u64, isize)];

/// The edges that leave `state`: where each leads and what it costs. An action is
/// the place of an edge in this list.
fn edges(graph: Graph, state: u64) -> Vec<(u64, isize)> {
    graph.iter().filter(|edge| edge.0 == state).map(|edge| (edge.1, edge.2)).collect()
}

/// Where `route` ends and what it costs.
fn replay(graph: Graph, start: u64, route: &[usize]) -> (u64, isize) {
    let mut state = start;
    let mut cost = 0;
    for action in route {
        let (next, step) = edges(graph, state)[*action];
        state = next;
        cost += step;
    }
    (state, cost)
}

fn by_count(graph: Graph, start: u64, goals: &'static [u64]) -> Option<Vec<usize>> {
    breadth_first_search(Problem {
        initial_state: start,
        actions: StateActionsFn::from_fn(move |s: &u64| (0..edges(graph, *s).len()).collect()),
        transition_model: TransitionFn::from_fn(move |s: &u64, a: &usize| edges(graph, *s)[*a].0),
        goal: GoalTestFn::from_fn(move |s: &u64| goals.contains(s)),
        path_cost: PathCostFn::from_fn(move |s: &u64, a: &usize| edges(graph, *s)[*a].1),
    })
}

fn by_cost(graph: Graph, start: u64, goals: &'static [u64]) -> Option<Vec<usize>> {
    uniform_cost_search(Problem {
        initial_state: start,
        actions: StateActionsFn::from_fn(move |s: &u64| (0..edges(graph, *s).len()).collect()),
        transition_model: TransitionFn::from_fn(move |s: &u64, a: &usize| edges(graph, *s)[*a].0),
        goal: GoalTestFn::from_fn(move |s: &u64| goals.contains(s)),
        path_cost: PathCostFn::from_fn(move |s: &u64, a: &usize| edges(graph, *s)[*a].1),
    })
}

/// The least cost of a way from `start` to one of `goals`, found by trying every
/// way of at most `depth` edges.
fn least_cost(graph: Graph, start: u64, goals: &[u64], depth: usize) -> Option<isize> {
    let mut best = if goals.contains(&start) { Some(0) } else { None };
    if depth > 0 {
        for (next, step) in edges(graph, start) {
            if let Some(rest) = least_cost(graph, next, goals, depth - 1) {
                if best.map_or(true, |b| step + rest < b) {
                    best = Some(step + rest);
                }
            }
        }
    }
    best
}

/// The least number of edges, one at least, of a way from `start` to one of
/// `goals` other than `start`.
fn least_count(graph: Graph, start: u64, goals: &[u64], depth: usize) -> Option<usize> {
    let mut level = vec![start];
    for steps in 1..=depth {
        let mut next_level = Vec::new();
        for state in &level {
            for (next, _) in edges(graph, *state) {
                if goals.contains(&next) && next != start {
                    return Some(steps);
                }
                next_level.push(next);
            }
        }
        level = next_level;
    }
    None
}

/// A dear edge from 0 to 1, and a cheap way round over 2.
static DETOUR: [(u64, u64, isize); 4] = [(0, 1, 10), (0, 2, 1), (2, 1, 1), (1, 3, 1)];

/// Two ways from 0 to 3 at the same cost, and a loop back to the start.
static TIE: [(u64, u64, isize); 5] = [(0, 1, 2), (0, 2, 2), (1, 3, 2), (2, 3, 2), (3, 0, 1)];

/// A near goal that is dear and a far goal that is cheap.
static TWO_GOALS: [(u64, u64, isize); 4] = [(0, 9, 50), (0, 1, 1), (1, 2, 1), (2, 8, 1)];

/// A ring with a branch that leads nowhere.
static RING: [(u64, u64, isize); 4] = [(0, 1, 1), (1, 2, 1), (2, 0, 1), (1, 5, 1)];

/// Edges that cost nothing beside one that costs.
static FREE: [(u64, u64, isize); 4] = [(0, 1, 0), (1, 2, 0), (0, 2, 1), (2, 3, 0)];

/// A cheaper way to a state that waits turns up twice.
static TWICE: [(u64, u64, isize); 7] =
    [(0, 1, 1), (0, 2, 4), (0, 3, 9), (1, 3, 6), (2, 3, 2), (3, 4, 1), (1, 2, 1)];

/// From the start and back at no cost.
static THERE_AND_BACK: [(u64, u64, isize); 3] = [(0, 1, 0), (1, 0, 0), (1, 2, 0)];

const NO_EDGES: [(u64, u64, isize); 0] = [];

static NOTHING: &[(u64, u64, isize)] = &NO_EDGES;

#[test]
fn search_by_cost_takes_the_cheap_way_round() {
    let route = by_cost(&DETOUR, 0, &[3]).expect("3 can be reached");
    assert_eq!(route, vec![1, 0, 0]);
    assert_eq!(replay(&DETOUR, 0, &route), (3, 3));
}

#[test]
fn breadth_first_takes_the_few_actions() {
    let route = by_count(&DETOUR, 0, &[3]).expect("3 can be reached");
    assert_eq!(route, vec![0, 0]);
    assert_eq!(replay(&DETOUR, 0, &route), (3, 11));
}

#[test]
fn a_cheaper_way_replaces_the_node_that_waits_more_than_once() {
    let route = by_cost(&TWICE, 0, &[4]).expect("4 can be reached");
    assert_eq!(route, vec![0, 1, 0, 0]);
    assert_eq!(replay(&TWICE, 0, &route), (4, 5));
    assert_eq!(least_cost(&TWICE, 0, &[4], 6), Some(5));
}

#[test]
fn breadth_first_returns_a_route_of_the_least_depth() {
    for (graph, goals) in [(&DETOUR[..], &[3u64][..]), (&TIE[..], &[3][..]), (&TWO_GOALS[..], &[8, 9][..]), (&TWICE[..], &[4][..])] {
        let graph: Graph = graph;
        let goals: &'static [u64] = goals;
        let route = by_count(graph, 0, goals).expect("a goal can be reached");
        assert_eq!(Some(route.len()), least_count(graph, 0, goals, 8));
        assert!(goals.contains(&replay(graph, 0, &route).0));
    }
}

#[test]
fn search_by_cost_returns_a_route_of_the_least_cost() {
    for (graph, goals) in [(&DETOUR[..], &[3u64][..]), (&TIE[..], &[3][..]), (&TWO_GOALS[..], &[8, 9][..]), (&FREE[..], &[3][..]), (&TWICE[..], &[4][..])] {
        let graph: Graph = graph;
        let goals: &'static [u64] = goals;
        let route = by_cost(graph, 0, goals).expect("a goal can be reached");
        let (end, cost) = replay(graph, 0, &route);
        assert!(goals.contains(&end));
        assert_eq!(Some(cost), least_cost(graph, 0, goals, 8));
    }
}

#[test]
fn the_near_goal_for_one_search_the_cheap_goal_for_the_other() {
    let near = by_count(&TWO_GOALS, 0, &[8, 9]).expect("a goal can be reached");
    assert_eq!(replay(&TWO_GOALS, 0, &near), (9, 50));
    assert_eq!(near.len(), 1);
    let cheap = by_cost(&TWO_GOALS, 0, &[8, 9]).expect("a goal can be reached");
    assert_eq!(replay(&TWO_GOALS, 0, &cheap), (8, 3));
    assert_eq!(cheap.len(), 3);
}

#[test]
fn edges_that_cost_nothing_are_taken() {
    let route = by_cost(&FREE, 0, &[3]).expect("3 can be reached");
    assert_eq!(replay(&FREE, 0, &route), (3, 0));
    assert_eq!(route, vec![0, 0, 0]);
}

#[test]
fn two_runs_reach_goals_of_equal_cost() {
    let first = by_cost(&TIE, 0, &[3]).expect("3 can be reached");
    let second = by_cost(&TIE, 0, &[3]).expect("3 can be reached");
    assert_eq!(replay(&TIE, 0, &first), (3, 4));
    assert_eq!(replay(&TIE, 0, &first).1, replay(&TIE, 0, &second).1);
    let first = by_count(&TIE, 0, &[3]).expect("3 can be reached");
    let second = by_count(&TIE, 0, &[3]).expect("3 can be reached");
    assert_eq!(first.len(), 2);
    assert_eq!(first.len(), second.len());
    assert_eq!(replay(&TIE, 0, &first).1, replay(&TIE, 0, &second).1);
}

#[test]
fn no_actions_and_no_goal_at_the_start_is_no_solution() {
    assert_eq!(by_count(NOTHING, 0, &[1]), None);
    assert_eq!(by_cost(NOTHING, 0, &[1]), None);
}

#[test]
fn a_goal_that_cannot_be_reached_is_no_solution() {
    assert_eq!(by_count(&RING, 0, &[7]), None);
    assert_eq!(by_cost(&RING, 0, &[7]), None);
}

#[test]
fn a_dead_end_is_passed_by() {
    let route = by_count(&RING, 0, &[2]).expect("2 can be reached");
    assert_eq!(replay(&RING, 0, &route).0, 2);
    assert_eq!(route.len(), 2);
    let route = by_cost(&RING, 0, &[5]).expect("5 can be reached");
    assert_eq!(replay(&RING, 0, &route), (5, 2));
}

#[test]
fn search_by_cost_asks_the_start_first() {
    assert_eq!(by_cost(&RING, 0, &[0]), Some(vec![]));
    assert_eq!(by_cost(NOTHING, 0, &[0]), Some(vec![]));
    assert_eq!(by_cost(&THERE_AND_BACK, 0, &[0]), Some(vec![]));
    assert_eq!(by_cost(&THERE_AND_BACK, 0, &[0, 1, 2]), Some(vec![]));
    assert_eq!(by_cost(&FREE, 0, &[3, 0]), Some(vec![]));
}

#[test]
fn breadth_first_never_asks_the_start() {
    assert_eq!(by_count(&RING, 0, &[0]), None);
    assert_eq!(by_count(NOTHING, 0, &[0]), None);
    let beyond = by_count(&RING, 0, &[0, 5]).expect("5 can be reached");
    assert_eq!(replay(&RING, 0, &beyond).0, 5);
}

#[test]
fn a_solution_replayed_from_the_start_ends_in_a_goal() {
    let route = by_cost(&TWICE, 0, &[3, 4]).expect("a goal can be reached");
    let end = replay(&TWICE, 0, &route).0;
    assert!(end == 3 || end == 4);
    let route = by_count(&TWICE, 0, &[3, 4]).expect("a goal can be reached");
    let end = replay(&TWICE, 0, &route).0;
    assert!(end == 3 || end == 4);
}
