//! The search nodes and the two searches.
//!
//! A node is a state with the way it was reached: its parent, the action taken
//! there and the cost so far. Nodes are never changed once made, and children
//! share their parent.

use crate::problem::{GoalTest, PathCostSource, Problem, SearchState, StateActionsMap, Transition};
use crate::search::frontier::{CostFrontier, FifoFrontier};
use crate::search::ledger::{lemma_keys_bounded, Ledger};
use std::collections::HashSet;
use std::rc::Rc;
use vstd::prelude::*;

pub mod frontier;
pub mod ledger;

verus! {

/// How a node was reached: from which node, by which action, at what cost in all.
pub struct GenerationContext<S, A> {
    pub parent: Rc<Node<S, A>>,
    pub action: A,
    pub path_cost: isize,
}

/// A place in the search tree. The root has no context.
pub struct Node<S, A> {
    pub state: S,
    pub ctx: Option<GenerationContext<S, A>>,
}

/// A node with the key of its state beside it. The frontier and the explored set
/// know a node by that key alone: two entries with one key stand for one place,
/// by whatever way and at whatever cost each was reached.
pub struct EqOnNodeState<S: SearchState, A> {
    node: Rc<Node<S, A>>,
    key: u64,
}

impl<S: SearchState, A> EqOnNodeState<S, A> {
    /// The key is that of the node's state.
    #[verifier::type_invariant]
    pub closed spec fn well_formed(self) -> bool {
        self.key == self.node.state.key_spec()
    }

    /// The node of the entry.
    pub closed spec fn node_of(self) -> Rc<Node<S, A>> {
        self.node
    }

    /// The key of the entry.
    pub closed spec fn key_of(self) -> u64 {
        self.key
    }

    /// The key of a well-formed entry is the key of its node's state.
    pub proof fn lemma_well_formed(self)
        ensures
            self.well_formed() <==> self.key_of() == self.node_of().state.key_spec(),
    {
    }

    /// The key of the state in which the node stands.
    pub fn key(&self) -> (key: u64)
        ensures
            key == self.key_of(),
            key == self.node_of().state.key_spec(),
    {
        proof {
            use_type_invariant(self);
        }
        self.key
    }

    /// The node.
    pub fn node(&self) -> (node: &Rc<Node<S, A>>)
        ensures
            *node == self.node_of(),
    {
        &self.node
    }

    /// The node, given up by the entry.
    pub fn into_node(self) -> (node: Rc<Node<S, A>>)
        ensures
            node == self.node_of(),
    {
        self.node
    }

    /// The entry of `node`, whose state has the key `key`.
    pub(crate) fn pair(node: Rc<Node<S, A>>, key: u64) -> (entry: Self)
        requires
            key == node.state.key_spec(),
        ensures
            entry.node_of() == node,
            entry.key_of() == key,
    {
        EqOnNodeState { node, key }
    }
}

impl<S: SearchState, A> From<Rc<Node<S, A>>> for EqOnNodeState<S, A> {
    fn from(value: Rc<Node<S, A>>) -> (entry: Self)
        ensures
            entry.node_of() == value,
            entry.key_of() == value.state.key_spec(),
    {
        let key = value.state.key();
        EqOnNodeState { node: value, key }
    }
}

impl<S: SearchState, A> vstd::std_specs::convert::FromSpecImpl<Rc<Node<S, A>>> for EqOnNodeState<S, A> {
    open spec fn obeys_from_spec() -> bool {
        true
    }

    closed spec fn from_spec(value: Rc<Node<S, A>>) -> Self {
        EqOnNodeState { node: value, key: value.state.key_spec() }
    }
}

impl<S: SearchState, A> PartialEq for EqOnNodeState<S, A> {
    /// Two entries are the same place when their nodes stand in the same state,
    /// by whatever way and at whatever cost each was reached.
    fn eq(&self, other: &Self) -> (same: bool) {
        self.node.state.same(&other.node.state)
    }
}

impl<S: SearchState, A> vstd::std_specs::cmp::PartialEqSpecImpl for EqOnNodeState<S, A> {
    open spec fn obeys_eq_spec() -> bool {
        true
    }

    open spec fn eq_spec(&self, other: &Self) -> bool {
        self.node_of().state == other.node_of().state
    }
}

impl<S: SearchState, A> PartialEq for Node<S, A> {
    /// Two nodes are the same place when they stand in the same state, by
    /// whatever way and at whatever cost each was reached.
    fn eq(&self, other: &Self) -> (same: bool) {
        self.state.same(&other.state)
    }
}

impl<S: SearchState, A> vstd::std_specs::cmp::PartialEqSpecImpl for Node<S, A> {
    open spec fn obeys_eq_spec() -> bool {
        true
    }

    open spec fn eq_spec(&self, other: &Self) -> bool {
        self.state == other.state
    }
}

impl<S, A> From<S> for Node<S, A> {
    fn from(state: S) -> (root: Self) {
        Self { state, ctx: None }
    }
}

impl<S, A> vstd::std_specs::convert::FromSpecImpl<S> for Node<S, A> {
    open spec fn obeys_from_spec() -> bool {
        true
    }

    open spec fn from_spec(state: S) -> Self {
        Node { state, ctx: None }
    }
}

/// The value behind a handle.
pub open spec fn held<T>(handle: Rc<T>) -> T {
    *handle
}

/// `Rc::clone`: one more handle on the same value.
#[verifier::external_body]
pub(crate) fn share<T>(handle: &Rc<T>) -> (twin: Rc<T>)
    ensures
        twin == *handle,
{
    Rc::clone(handle)
}

/// The elements of `items`, last first.
fn reversed<A: Copy>(items: &Vec<A>) -> (turned: Vec<A>)
    ensures
        turned@ == items@.reverse(),
{
    let mut turned: Vec<A> = Vec::new();
    let mut left: usize = items.len();
    while left > 0
        invariant
            left <= items.len(),
            turned.len() == items.len() - left,
            forall|i: int| 0 <= i < turned.len() ==> turned[i] == items[items.len() - 1 - i],
        decreases left,
    {
        left = left - 1;
        turned.push(items[left]);
    }
    assert(turned@ =~= items@.reverse());
    turned
}

impl<S, A> Node<S, A> {
    /// The actions that lead from the root to this node, the first taken first.
    pub open spec fn route(&self) -> Seq<A>
        decreases self,
    {
        match self.ctx {
            None => Seq::empty(),
            Some(ctx) => ctx.parent.route().push(ctx.action),
        }
    }

    /// The cost so far: nothing at the root, else what was stored when the node
    /// was made.
    pub open spec fn cost(&self) -> isize {
        match self.ctx {
            None => 0,
            Some(ctx) => ctx.path_cost,
        }
    }

    /// The cost of the way from the root to this node, as stored when it was made.
    pub fn path_cost(&self) -> (cost: isize)
        ensures
            cost == self.cost(),
    {
        match &self.ctx {
            Some(ctx) => ctx.path_cost,
            None => 0,
        }
    }
}

impl<S: SearchState, A> Node<S, A> {
    /// The node stands for its route in `problem`: the route can be taken, ends
    /// in the node's state, and costs what the node says.
    pub open spec fn records<P, T, G, C>(&self, problem: &Problem<P, T, G, C>) -> bool where
        P: StateActionsMap<State = S, Action = A>,
        T: Transition<State = S, Action = A>,
        G: GoalTest<State = S>,
        C: PathCostSource<State = S, Action = A, CostType = isize>,
     {
        &&& problem.is_route(self.route())
        &&& problem.run(self.route()) == self.state
        &&& problem.route_cost(self.route()) == self.cost()
    }
}

impl<S, A: Copy> Node<S, A> {
    /// The actions that lead from the root to this node, in the order in which
    /// they are to be taken: the action that made this node comes last.
    pub fn solution(&self) -> (actions: Vec<A>)
        ensures
            actions@ == self.route(),
    {
        let mut backwards: Vec<A> = Vec::new();
        let mut current = self;
        while current.ctx.is_some()
            invariant
                self.route() == current.route() + backwards@.reverse(),
            decreases current,
        {
            match &current.ctx {
                Some(ctx) => {
                    proof {
                        let taken = backwards@;
                        assert(taken.push(ctx.action).reverse() =~= seq![ctx.action]
                            + taken.reverse());
                        assert(ctx.parent.route() + (seq![ctx.action] + taken.reverse())
                            =~= ctx.parent.route().push(ctx.action) + taken.reverse());
                    }
                    backwards.push(ctx.action);
                    current = &*ctx.parent;
                },
                None => {},
            }
        }
        assert(current.route() + backwards@.reverse() =~= backwards@.reverse());
        reversed(&backwards)
    }
}

/// The child of `node` by `action`: it stands in the state that the action leads
/// to, and its cost is that of `node` and of the action together. `node` is not
/// changed; the child holds a handle on it.
pub fn generate<A, T, G, C>(
    problem: &Problem<A, T, G, C>,
    node: &Rc<Node<A::State, A::Action>>,
    action: A::Action,
) -> (child: Node<A::State, A::Action>) where
    A: StateActionsMap,
    T: Transition<State = A::State, Action = A::Action>,
    G: GoalTest<State = A::State>,
    C: PathCostSource<State = A::State, Action = A::Action, CostType = isize>,

    requires
        isize::MIN <= node.cost() + problem.path_cost.cost_spec(&node.state, &action)
            <= isize::MAX,
    ensures
        child.state == problem.transition_model.transition_spec(&node.state, &action),
        child.ctx == Some(
            GenerationContext {
                parent: *node,
                action,
                path_cost: (node.cost() + problem.path_cost.cost_spec(&node.state, &action)) as isize,
            },
        ),
{
    let sucessor = problem.transition_model.transition(&node.state, &action);
    let cost = problem.path_cost.cost(&node.state, &action);
    let before = match &node.ctx {
        Some(ctx) => ctx.path_cost,
        None => 0,
    };
    Node {
        state: sucessor,
        ctx: Some(GenerationContext { parent: share(node), action, path_cost: cost + before }),
    }
}

/// A child made by `generate` from a node that records its route records its own,
/// which is the parent's and the action after it.
pub proof fn lemma_child_records<A, T, G, C>(
    problem: &Problem<A, T, G, C>,
    node: Node<A::State, A::Action>,
    action: A::Action,
    child: Node<A::State, A::Action>,
) where
    A: StateActionsMap,
    A::State: SearchState,
    T: Transition<State = A::State, Action = A::Action>,
    G: GoalTest<State = A::State>,
    C: PathCostSource<State = A::State, Action = A::Action, CostType = isize>,

    requires
        node.records(problem),
        problem.actions.actions_spec(&node.state).contains(action),
        isize::MIN <= node.cost() + problem.path_cost.cost_spec(&node.state, &action)
            <= isize::MAX,
        child.state == problem.transition_model.transition_spec(&node.state, &action),
        child.ctx == Some(
            GenerationContext {
                parent: Rc::new(node),
                action,
                path_cost: (node.cost() + problem.path_cost.cost_spec(&node.state, &action)) as isize,
            },
        ),
    ensures
        child.route() == node.route().push(action),
        child.records(problem),
{
    problem.lemma_route_push(node.route(), action);
}

/// The actions of a result as a sequence.
pub open spec fn actions_of<A>(found: Option<Vec<A>>) -> Option<Seq<A>> {
    match found {
        Some(actions) => Some(actions@),
        None => None,
    }
}

/// What the breadth-first search returns. It never asks whether the start is a
/// goal, so it looks for a goal other than the start. A route that it returns
/// leads to such a goal and has no more actions than any other route that does;
/// it returns none only where no route leads to such a goal.
pub open spec fn breadth_first_outcome<A, T, G, C>(
    problem: &Problem<A, T, G, C>,
    found: Option<Seq<A::Action>>,
) -> bool where
    A: StateActionsMap,
    A::State: SearchState,
    T: Transition<State = A::State, Action = A::Action>,
    G: GoalTest<State = A::State>,
    C: PathCostSource<State = A::State, Action = A::Action, CostType = isize>,
 {
    match found {
        Some(route) => {
            &&& problem.leads_to_goal(route)
            &&& problem.leaves_start(route)
            &&& forall|other: Seq<A::Action>| #[trigger]
                problem.leads_to_goal(other) && problem.leaves_start(other) ==> route.len()
                    <= other.len()
        },
        None => forall|other: Seq<A::Action>| #[trigger]
            problem.leads_to_goal(other) ==> !problem.leaves_start(other),
    }
}

/// What the breadth-first search keeps true of its frontier, its explored set and
/// its ledger. `level` is the number of actions behind the node that left the
/// frontier last; while that node is expanded, `hole` is its key.
pub open spec fn breadth_first_books<A, T, G, C>(
    problem: &Problem<A, T, G, C>,
    frontier: FifoFrontier<A::State, A::Action>,
    explored: Set<u64>,
    ledger: Ledger,
    level: int,
    hole: Option<u64>,
) -> bool where
    A: StateActionsMap,
    A::State: SearchState,
    T: Transition<State = A::State, Action = A::Action>,
    G: GoalTest<State = A::State>,
    C: PathCostSource<State = A::State, Action = A::Action, CostType = isize>,
 {
    &&& frontier.well_formed()
    &&& explored.finite()
    &&& explored == ledger.settled.dom()
    &&& frontier.keys() == ledger.open.dom()
    &&& forall|k: u64| #[trigger] ledger.settled.contains_key(k) ==> !ledger.open.contains_key(k)
    &&& forall|i: int|
        0 <= i < frontier.nodes().len() ==> ledger.waits(problem, *#[trigger] frontier.nodes()[i])
            && ledger.open[frontier.nodes()[i].state.key_spec()] == frontier.nodes()[i].route().len()
    &&& forall|i: int, j: int|
        0 <= i < j < frontier.nodes().len() ==> (#[trigger] frontier.nodes()[i]).route().len() <= (
        #[trigger] frontier.nodes()[j]).route().len()
    &&& forall|k: u64| #[trigger] ledger.settled.contains_key(k) ==> ledger.settled[k] <= level
    &&& forall|k: u64| #[trigger]
        ledger.open.contains_key(k) ==> level <= ledger.open[k] <= level + 1
    &&& ledger.sound(problem, false, hole)
    &&& forall|route: Seq<A::Action>| #[trigger] ledger.goal_free(problem, false, route)
}

/// Searches the states in the order in which they are met: the start, then what
/// one action reaches, then what two reach. A new state is asked whether it is a
/// goal when it is made, before it joins the frontier.
#[verifier::loop_isolation(false)]
pub fn breadth_first_search<A, T, G, C>(problem: Problem<A, T, G, C>) -> (found: Option<
    Vec<A::Action>,
>) where
    A: StateActionsMap,
    A::State: SearchState,
    A::Action: Copy,
    T: Transition<State = A::State, Action = A::Action>,
    G: GoalTest<State = A::State>,
    C: PathCostSource<State = A::State, Action = A::Action, CostType = isize>,

    requires
        problem.keys_tell_apart(),
        problem.costs_fit(),
    ensures
        breadth_first_outcome(&problem, actions_of(found)),
{
    let root: Rc<Node<A::State, A::Action>> = Rc::new(Node::from(problem.initial_state.duplicate()));
    let first = EqOnNodeState::from(share(&root));
    let mut frontier: FifoFrontier<A::State, A::Action> = FifoFrontier::new();
    frontier.push_back(first);
    let mut explored: HashSet<u64> = HashSet::new();
    let ghost mut ledger = Ledger {
        settled: Map::empty(),
        open: Map::empty().insert(problem.initial_state.key_spec(), 0int),
    };
    let ghost mut level: int = 0;
    proof {
        let none: Seq<A::Action> = Seq::empty();
        assert(root.route() =~= none);
        assert(problem.trail(none) =~= seq![problem.initial_state.key_spec()]);
        assert(frontier.nodes()[0] == root);
        assert(frontier.keys() =~= ledger.open.dom());
        assert(explored@ =~= ledger.settled.dom());
        assert forall|route: Seq<A::Action>| #[trigger]
            ledger.goal_free(&problem, false, route) by {
            if problem.is_route(route) && problem.run(route).key_spec()
                == problem.initial_state.key_spec() {
                assert(problem.run(route) == problem.run(none));
            }
        }
    }
    loop
        invariant
            breadth_first_books(&problem, frontier, explored@, ledger, level, None),
        decreases 0x1_0000_0000_0000_0000 - explored@.len(),
    {
        let ghost waiting = frontier;
        let ghost booked = ledger;
        let ghost seen = explored@;
        proof {
            lemma_keys_bounded(explored@);
        }
        let unexplored = match frontier.pop_front() {
            Some(entry) => entry,
            None => {
                proof {
                    assert forall|other: Seq<A::Action>| #[trigger]
                        problem.leads_to_goal(other) implies !problem.leaves_start(other) by {
                        ledger.lemma_nothing_left(&problem, false, other);
                    }
                }
                return None;
            },
        };
        proof {
            use_type_invariant(&unexplored);
        }
        let ghost parent = held(unexplored.node);
        let ghost way = parent.route();
        let ghost depth = way.len() as int;
        proof {
            assert(waiting.nodes()[0] == unexplored.node);
            assert forall|k: u64| #[trigger] booked.open.contains_key(k) implies depth
                <= booked.open[k] by {
                let i = choose|i: int|
                    0 <= i < waiting.nodes().len() && (
                    #[trigger] waiting.nodes()[i]).state.key_spec() == k;
                assert(waiting.nodes()[0].route().len() <= waiting.nodes()[i].route().len());
            }
            assert forall|other: Seq<A::Action>| #[trigger]
                problem.leads_to_goal(other) && problem.leaves_start(other) implies depth + 1
                <= other.len() by {
                booked.lemma_goal_lies_deeper(&problem, depth, other);
            }
            ledger =
            Ledger {
                settled: booked.settled.insert(unexplored.key, depth),
                open: booked.open.remove(unexplored.key),
            };
            level = depth;
            booked.lemma_sound_later(ledger, &problem, false, None, Some(unexplored.key));
            assert forall|i: int| 0 <= i < frontier.nodes().len() implies ledger.waits(
                &problem,
                *#[trigger] frontier.nodes()[i],
            ) && ledger.open[frontier.nodes()[i].state.key_spec()]
                == frontier.nodes()[i].route().len() by {
                assert(frontier.nodes()[i] == waiting.nodes()[i + 1]);
                booked.lemma_waits_later(ledger, &problem, *waiting.nodes()[i + 1]);
                assert(waiting.nodes()[0].state.key_spec() != waiting.nodes()[i
                    + 1].state.key_spec());
            }
            assert forall|i: int, j: int| 0 <= i < j < frontier.nodes().len() implies (
            #[trigger] frontier.nodes()[i]).route().len() <= (
            #[trigger] frontier.nodes()[j]).route().len() by {
                assert(waiting.nodes()[i + 1].route().len() <= waiting.nodes()[j
                    + 1].route().len());
            }
            booked.lemma_waits_later(ledger, &problem, parent);
            problem.lemma_trail_shape(way);
            assert forall|route: Seq<A::Action>| #[trigger]
                ledger.goal_free(&problem, false, route) by {
                assert(booked.goal_free(&problem, false, route));
            }
            assert(frontier.keys() =~= ledger.open.dom());
            assert(explored@.insert(unexplored.key) =~= ledger.settled.dom());
        }
        explored.insert(unexplored.key);
        proof {
            assert(booked.open.contains_key(unexplored.key));
            assert(explored@.len() == seen.len() + 1);
            lemma_keys_bounded(explored@);
        }
        let actions = problem.actions.actions(&unexplored.node.state);
        let mut i: usize = 0;
        while i < actions.len()
            invariant
                0 <= i <= actions.len(),
                level == depth,
                breadth_first_books(
                    &problem,
                    frontier,
                    explored@,
                    ledger,
                    depth,
                    Some(unexplored.key),
                ),
                ledger.left(&problem, *unexplored.node),
                ledger.settled[unexplored.key] == depth,
                ledger.tried(&problem, false, unexplored.node.state, depth, i as int),
            decreases actions.len() - i,
        {
            let act = actions[i];
            let ghost noted = ledger;
            let ghost queued = frontier;
            proof {
                assert(problem.extends(way, act));
                assert(isize::MIN <= problem.route_cost(way) + problem.step_cost(way, act)
                    <= isize::MAX);
            }
            let child = generate(&problem, &unexplored.node, act);
            proof {
                lemma_child_records(&problem, parent, act, child);
            }
            let new_node = EqOnNodeState::from(Rc::new(child));
            let ghost made = held(new_node.node);
            if !(explored.contains(&new_node.key) || frontier.contains(new_node.key)) {
                if problem.goal.is_goal(&new_node.node.state) {
                    let steps = new_node.node.solution();
                    proof {
                        assert(ledger.covers(problem.initial_state.key_spec(), 0));
                    }
                    return Some(steps);
                }
                proof {
                    ledger =
                    Ledger { settled: noted.settled, open: noted.open.insert(new_node.key, depth + 1) };
                    noted.lemma_sound_later(
                        ledger,
                        &problem,
                        false,
                        Some(unexplored.key),
                        Some(unexplored.key),
                    );
                    noted.lemma_tried_later(ledger, &problem, false, parent.state, depth, i as int);
                    noted.lemma_goal_free_later(ledger, &problem, false, made.route());
                    noted.lemma_child_waits(&problem, parent, act, made);
                }
                frontier.push_back(new_node);
                proof {
                    assert(frontier.keys() =~= ledger.open.dom());
                    assert forall|j: int| 0 <= j < frontier.nodes().len() implies ledger.waits(
                        &problem,
                        *#[trigger] frontier.nodes()[j],
                    ) && ledger.open[frontier.nodes()[j].state.key_spec()]
                        == frontier.nodes()[j].route().len() by {
                        if j < queued.nodes().len() {
                            assert(frontier.nodes()[j] == queued.nodes()[j]);
                            assert(noted.waits(&problem, *queued.nodes()[j]));
                        }
                    }
                    assert forall|a: int, b: int| 0 <= a < b < frontier.nodes().len() implies (
                    #[trigger] frontier.nodes()[a]).route().len() <= (
                    #[trigger] frontier.nodes()[b]).route().len() by {
                        assert(frontier.nodes()[a] == queued.nodes()[a]);
                        assert(noted.open.contains_key(queued.nodes()[a].state.key_spec()));
                        if b < queued.nodes().len() {
                            assert(frontier.nodes()[b] == queued.nodes()[b]);
                        }
                    }
                }
            }
            proof {
                assert(ledger.covers(
                    problem.transition_model.transition_spec(
                        &unexplored.node.state,
                        &actions@[i as int],
                    ).key_spec(),
                    depth + 1,
                ));
            }
            i += 1;
        }
        proof {
            ledger.lemma_sound_whole(&problem, false, unexplored.key, way);
        }
    }
}

/// What the search by cost returns. A route that it returns leads to a goal and
/// costs no more than any other route that does; it returns none only where no
/// route leads to a goal. Where the start is a goal it returns the route without
/// actions, since the start is the first node to be asked.
pub open spec fn uniform_cost_outcome<A, T, G, C>(
    problem: &Problem<A, T, G, C>,
    found: Option<Seq<A::Action>>,
) -> bool where
    A: StateActionsMap,
    A::State: SearchState,
    T: Transition<State = A::State, Action = A::Action>,
    G: GoalTest<State = A::State>,
    C: PathCostSource<State = A::State, Action = A::Action, CostType = isize>,
 {
    &&& match found {
        Some(route) => {
            &&& problem.leads_to_goal(route)
            &&& forall|other: Seq<A::Action>| #[trigger]
                problem.leads_to_goal(other) ==> problem.route_cost(route) <= problem.route_cost(
                    other,
                )
        },
        None => forall|other: Seq<A::Action>| !#[trigger] problem.leads_to_goal(other),
    }
    &&& problem.goal.is_goal_spec(&problem.initial_state) ==> found == Some(
        Seq::<A::Action>::empty(),
    )
}

/// What the search by cost keeps true of its frontier, its explored set and its
/// ledger. `level` is the cost of the node that left the frontier last; while
/// that node is expanded, `hole` is its key.
pub open spec fn uniform_cost_books<A, T, G, C>(
    problem: &Problem<A, T, G, C>,
    frontier: CostFrontier<A::State, A::Action>,
    explored: Set<u64>,
    ledger: Ledger,
    level: int,
    hole: Option<u64>,
) -> bool where
    A: StateActionsMap,
    A::State: SearchState,
    T: Transition<State = A::State, Action = A::Action>,
    G: GoalTest<State = A::State>,
    C: PathCostSource<State = A::State, Action = A::Action, CostType = isize>,
 {
    &&& frontier.well_formed()
    &&& explored.finite()
    &&& explored == ledger.settled.dom()
    &&& frontier.entries().dom() == ledger.open.dom()
    &&& forall|k: u64| #[trigger] ledger.settled.contains_key(k) ==> !ledger.open.contains_key(k)
    &&& forall|k: u64| #[trigger]
        frontier.entries().contains_key(k) ==> ledger.waits(problem, *frontier.entries()[k])
            && ledger.open[k] == frontier.entries()[k].cost()
    &&& forall|k: u64| #[trigger] ledger.settled.contains_key(k) ==> ledger.settled[k] <= level
    &&& forall|k: u64| #[trigger] ledger.open.contains_key(k) ==> level <= ledger.open[k]
    &&& ledger.sound(problem, true, hole)
    &&& forall|route: Seq<A::Action>| #[trigger] ledger.goal_free(problem, true, route)
}

/// Searches the states in the order of what it costs to reach them. A node is
/// asked whether it stands in a goal when it leaves the frontier as the cheapest
/// there, so the first goal that leaves is a cheapest one. Where a cheaper way to
/// a state that waits is found, the node that waits gives way to the cheaper
/// node. Which of several nodes of one cost leaves first is left to the queue.
#[verifier::loop_isolation(false)]
pub fn uniform_cost_search<A, T, G, C>(problem: Problem<A, T, G, C>) -> (found: Option<
    Vec<A::Action>,
>) where
    A: StateActionsMap,
    A::State: SearchState,
    A::Action: Copy,
    T: Transition<State = A::State, Action = A::Action>,
    G: GoalTest<State = A::State>,
    C: PathCostSource<State = A::State, Action = A::Action, CostType = isize>,

    requires
        problem.keys_tell_apart(),
        problem.costs_fit(),
        problem.costs_nonnegative(),
    ensures
        uniform_cost_outcome(&problem, actions_of(found)),
{
    let root: Rc<Node<A::State, A::Action>> = Rc::new(Node::from(problem.initial_state.duplicate()));
    let first = EqOnNodeState::from(share(&root));
    let mut frontier: CostFrontier<A::State, A::Action> = CostFrontier::new();
    frontier.push(first);
    let mut explored: HashSet<u64> = HashSet::new();
    let ghost mut ledger = Ledger {
        settled: Map::empty(),
        open: Map::empty().insert(problem.initial_state.key_spec(), 0int),
    };
    let ghost mut level: int = 0;
    proof {
        let none: Seq<A::Action> = Seq::empty();
        assert(root.route() =~= none);
        assert(problem.trail(none) =~= seq![problem.initial_state.key_spec()]);
        assert(frontier.entries().dom() =~= ledger.open.dom());
        assert(explored@ =~= ledger.settled.dom());
    }
    loop
        invariant
            uniform_cost_books(&problem, frontier, explored@, ledger, level, None),
            problem.goal.is_goal_spec(&problem.initial_state) ==> forall|k: u64| #[trigger]
                frontier.entries().contains_key(k) ==> frontier.entries()[k].route().len() == 0,
        decreases 0x1_0000_0000_0000_0000 - explored@.len(),
    {
        let ghost waiting = frontier;
        let ghost booked = ledger;
        let ghost seen = explored@;
        proof {
            lemma_keys_bounded(explored@);
        }
        let lowest_cost_node = match frontier.pop() {
            Some(entry) => entry,
            None => {
                proof {
                    assert forall|other: Seq<A::Action>| !#[trigger] problem.leads_to_goal(
                        other,
                    ) by {
                        if problem.leads_to_goal(other) {
                            assert forall|k: u64| !booked.open.contains_key(k) by {
                                assert(!waiting.entries().dom().contains(k));
                            }
                            booked.lemma_nothing_left(&problem, true, other);
                        }
                    }
                    assert(!problem.leads_to_goal(Seq::<A::Action>::empty()));
                }
                return None;
            },
        };
        proof {
            use_type_invariant(&lowest_cost_node);
        }
        let ghost parent = held(lowest_cost_node.node);
        let ghost way = parent.route();
        let ghost cost = parent.cost() as int;
        proof {
            assert(waiting.entries().contains_key(lowest_cost_node.key));
            assert forall|k: u64| #[trigger] booked.open.contains_key(k) implies cost
                <= booked.open[k] by {
                assert(waiting.entries().contains_key(k));
            }
        }
        if problem.goal.is_goal(&lowest_cost_node.node.state) {
            let steps = lowest_cost_node.node.solution();
            proof {
                if problem.goal.is_goal_spec(&problem.initial_state) {
                    assert(steps@ =~= Seq::<A::Action>::empty());
                }
                assert forall|other: Seq<A::Action>| #[trigger]
                    problem.leads_to_goal(other) implies problem.route_cost(way)
                    <= problem.route_cost(other) by {
                    booked.lemma_goal_costs_more(&problem, cost, other);
                }
            }
            return Some(steps);
        }
        proof {
            if problem.goal.is_goal_spec(&problem.initial_state) {
                assert(way =~= Seq::<A::Action>::empty());
            }
            assert(!problem.goal.is_goal_spec(&problem.initial_state));
            ledger =
            Ledger {
                settled: booked.settled.insert(lowest_cost_node.key, cost),
                open: booked.open.remove(lowest_cost_node.key),
            };
            level = cost;
            booked.lemma_sound_later(ledger, &problem, true, None, Some(lowest_cost_node.key));
            booked.lemma_goal_free_later(ledger, &problem, true, way);
            assert forall|k: u64| #[trigger] frontier.entries().contains_key(k) implies ledger.waits(
                &problem,
                *frontier.entries()[k],
            ) && ledger.open[k] == frontier.entries()[k].cost() by {
                assert(waiting.entries().contains_key(k));
                booked.lemma_waits_later(ledger, &problem, *waiting.entries()[k]);
            }
            booked.lemma_waits_later(ledger, &problem, parent);
            problem.lemma_trail_shape(way);
            assert(frontier.entries().dom() =~= ledger.open.dom());
            assert(explored@.insert(lowest_cost_node.key) =~= ledger.settled.dom());
        }
        explored.insert(lowest_cost_node.key);
        proof {
            assert(booked.open.contains_key(lowest_cost_node.key));
            assert(explored@.len() == seen.len() + 1);
            lemma_keys_bounded(explored@);
        }
        let actions = problem.actions.actions(&lowest_cost_node.node.state);
        let mut i: usize = 0;
        while i < actions.len()
            invariant
                0 <= i <= actions.len(),
                level == cost,
                uniform_cost_books(
                    &problem,
                    frontier,
                    explored@,
                    ledger,
                    cost,
                    Some(lowest_cost_node.key),
                ),
                ledger.left(&problem, parent),
                ledger.settled[lowest_cost_node.key] == cost,
                ledger.tried(&problem, true, parent.state, cost, i as int),
            decreases actions.len() - i,
        {
            let act = actions[i];
            let ghost noted = ledger;
            let ghost queued = frontier;
            proof {
                assert(problem.extends(way, act));
                assert(isize::MIN <= problem.route_cost(way) + problem.step_cost(way, act)
                    <= isize::MAX);
                assert(0 <= problem.step_cost(way, act));
            }
            let child_node = generate(&problem, &lowest_cost_node.node, act);
            proof {
                lemma_child_records(&problem, parent, act, child_node);
            }
            let child = EqOnNodeState::from(Rc::new(child_node));
            let ghost made = held(child.node);
            let ghost reached = child.key;
            if !(explored.contains(&child.key) || frontier.contains(child.key)) {
                proof {
                    ledger =
                    Ledger { settled: noted.settled, open: noted.open.insert(reached, made.cost() as int) };
                    noted.lemma_child_waits(&problem, parent, act, made);
                }
                frontier.push(child);
            } else if frontier.contains(child.key) {
                proof {
                    if made.cost() < noted.open[reached] {
                        ledger =
                        Ledger {
                            settled: noted.settled,
                            open: noted.open.insert(reached, made.cost() as int),
                        };
                        noted.lemma_child_waits(&problem, parent, act, made);
                    }
                }
                frontier.improve(child);
            }
            proof {
                noted.lemma_sound_later(
                    ledger,
                    &problem,
                    true,
                    Some(lowest_cost_node.key),
                    Some(lowest_cost_node.key),
                );
                noted.lemma_tried_later(ledger, &problem, true, parent.state, cost, i as int);
                assert forall|route: Seq<A::Action>| #[trigger]
                    ledger.goal_free(&problem, true, route) by {
                    assert(noted.goal_free(&problem, true, route));
                }
                assert(frontier.entries().dom() =~= ledger.open.dom());
                assert forall|k: u64| #[trigger]
                    frontier.entries().contains_key(k) implies ledger.waits(
                    &problem,
                    *frontier.entries()[k],
                ) && ledger.open[k] == frontier.entries()[k].cost() by {
                    if k != reached {
                        assert(queued.entries().contains_key(k));
                        assert(noted.waits(&problem, *queued.entries()[k]));
                    }
                }
                assert(ledger.covers(
                    problem.transition_model.transition_spec(
                        &parent.state,
                        &actions@[i as int],
                    ).key_spec(),
                    cost + problem.step_cost(way, act),
                ));
            }
            i += 1;
        }
        proof {
            ledger.lemma_sound_whole(&problem, true, lowest_cost_node.key, way);
        }
    }
}

/// The breadth-first search finds a goal at the least depth. Where the start is
/// no goal and some route leads to a goal, what it returns is a route to a goal
/// with no more actions than that route, whichever route that is.
pub proof fn lemma_breadth_first_least_depth<A, T, G, C>(
    problem: &Problem<A, T, G, C>,
    found: Option<Seq<A::Action>>,
    other: Seq<A::Action>,
) where
    A: StateActionsMap,
    A::State: SearchState,
    T: Transition<State = A::State, Action = A::Action>,
    G: GoalTest<State = A::State>,
    C: PathCostSource<State = A::State, Action = A::Action, CostType = isize>,

    requires
        breadth_first_outcome(problem, found),
        !problem.goal.is_goal_spec(&problem.initial_state),
        problem.leads_to_goal(other),
    ensures
        found is Some,
        problem.leads_to_goal(found.unwrap()),
        found.unwrap().len() <= other.len(),
{
}

/// The search by cost finds a cheapest goal. Where some route leads to a goal,
/// what it returns is a route to a goal that costs no more than that route,
/// whichever route that is.
pub proof fn lemma_uniform_cost_least_cost<A, T, G, C>(
    problem: &Problem<A, T, G, C>,
    found: Option<Seq<A::Action>>,
    other: Seq<A::Action>,
) where
    A: StateActionsMap,
    A::State: SearchState,
    T: Transition<State = A::State, Action = A::Action>,
    G: GoalTest<State = A::State>,
    C: PathCostSource<State = A::State, Action = A::Action, CostType = isize>,

    requires
        uniform_cost_outcome(problem, found),
        problem.leads_to_goal(other),
    ensures
        found is Some,
        problem.leads_to_goal(found.unwrap()),
        problem.route_cost(found.unwrap()) <= problem.route_cost(other),
{
}

/// The actions that either search returns, taken one after the other from the
/// start, each where it is open, end in a goal.
pub proof fn lemma_solution_reaches_goal<A, T, G, C>(
    problem: &Problem<A, T, G, C>,
    solution: Seq<A::Action>,
) where
    A: StateActionsMap,
    A::State: SearchState,
    T: Transition<State = A::State, Action = A::Action>,
    G: GoalTest<State = A::State>,
    C: PathCostSource<State = A::State, Action = A::Action, CostType = isize>,

    requires
        breadth_first_outcome(problem, Some(solution)) || uniform_cost_outcome(
            problem,
            Some(solution),
        ),
    ensures
        problem.is_route(solution),
        problem.goal.is_goal_spec(&problem.run(solution)),
{
}

/// Two runs of the breadth-first search on problems of one value agree: both
/// return nothing, or both return routes with the same number of actions, which
/// cost the same where every action costs one.
pub proof fn lemma_breadth_first_runs_agree<A, T, G, C>(
    first: &Problem<A, T, G, C>,
    second: &Problem<A, T, G, C>,
    found_first: Option<Seq<A::Action>>,
    found_second: Option<Seq<A::Action>>,
) where
    A: StateActionsMap,
    A::State: SearchState,
    T: Transition<State = A::State, Action = A::Action>,
    G: GoalTest<State = A::State>,
    C: PathCostSource<State = A::State, Action = A::Action, CostType = isize>,

    requires
        *first == *second,
        breadth_first_outcome(first, found_first),
        breadth_first_outcome(second, found_second),
    ensures
        found_first is Some <==> found_second is Some,
        found_first is Some ==> found_first.unwrap().len() == found_second.unwrap().len(),
        found_first is Some && (forall|r: Seq<A::Action>, a: A::Action|
            first.extends(r, a) ==> #[trigger] first.step_cost(r, a) == 1) ==> first.route_cost(
            found_first.unwrap(),
        ) == second.route_cost(found_second.unwrap()),
{
    if found_first is Some && found_second is Some {
        if forall|r: Seq<A::Action>, a: A::Action|
            first.extends(r, a) ==> #[trigger] first.step_cost(r, a) == 1 {
            first.lemma_unit_costs(found_first.unwrap());
            first.lemma_unit_costs(found_second.unwrap());
        }
    }
}

/// Two runs of the search by cost on problems of one value agree: both return
/// nothing, or both return routes of the same cost. The routes themselves may
/// differ where several cost the same.
pub proof fn lemma_uniform_cost_runs_agree<A, T, G, C>(
    first: &Problem<A, T, G, C>,
    second: &Problem<A, T, G, C>,
    found_first: Option<Seq<A::Action>>,
    found_second: Option<Seq<A::Action>>,
) where
    A: StateActionsMap,
    A::State: SearchState,
    T: Transition<State = A::State, Action = A::Action>,
    G: GoalTest<State = A::State>,
    C: PathCostSource<State = A::State, Action = A::Action, CostType = isize>,

    requires
        *first == *second,
        uniform_cost_outcome(first, found_first),
        uniform_cost_outcome(second, found_second),
    ensures
        found_first is Some <==> found_second is Some,
        found_first is Some ==> first.route_cost(found_first.unwrap()) == second.route_cost(
            found_second.unwrap(),
        ),
{
}

/// Where no action is open in any state and the start is no goal, both searches
/// return nothing.
pub proof fn lemma_dead_end_start<A, T, G, C>(
    problem: &Problem<A, T, G, C>,
    found: Option<Seq<A::Action>>,
) where
    A: StateActionsMap,
    A::State: SearchState,
    T: Transition<State = A::State, Action = A::Action>,
    G: GoalTest<State = A::State>,
    C: PathCostSource<State = A::State, Action = A::Action, CostType = isize>,

    requires
        forall|s: A::State| (#[trigger] problem.actions.actions_spec(&s)).len() == 0,
        !problem.goal.is_goal_spec(&problem.initial_state),
        breadth_first_outcome(problem, found) || uniform_cost_outcome(problem, found),
    ensures
        found is None,
{
    if found is Some {
        let route = found.unwrap();
        assert(problem.leads_to_goal(route));
        if route.len() > 0 {
            assert(problem.actions.actions_spec(&problem.run(route.drop_last())).len() == 0);
        }
    }
}

} // verus!
