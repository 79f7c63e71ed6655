//! What a search is given: a start, the actions open in a state, where an action
//! leads, which states are goals, and what an action costs.
//!
//! Each of the four capabilities is a trait with a specification function and an
//! executable method that computes it, so that a capability is a pure function of
//! its arguments. `Problem` bundles them with the start, and carries the
//! mathematical model that the searches are stated over: routes, the states they
//! pass, and what they cost.

use std::collections::HashMap;
use std::marker::PhantomData;
use vstd::prelude::*;

pub mod square_less_one;
pub mod vacuume_world;

pub use square_less_one::square_less_one;
pub use vacuume_world::vacuume_world;

verus! {

/// A state as a search needs it: it has an integer key by which it is found
/// again in the explored set and in the frontier, and it can be copied.
///
/// Two states that a problem can reach must differ in their keys; see
/// `Problem::keys_tell_apart`.
pub trait SearchState: Sized {
    /// The key of this state.
    spec fn key_spec(&self) -> u64;

    fn key(&self) -> (k: u64)
        ensures
            k == self.key_spec(),
    ;

    fn duplicate(&self) -> (twin: Self)
        ensures
            twin == *self,
    ;

    /// Whether this state and `other` are the same state.
    fn same(&self, other: &Self) -> (yes: bool)
        ensures
            yes == (*self == *other),
    ;
}

impl SearchState for u64 {
    open spec fn key_spec(&self) -> u64 {
        *self
    }

    fn key(&self) -> (k: u64) {
        *self
    }

    fn duplicate(&self) -> (twin: Self) {
        *self
    }

    fn same(&self, other: &Self) -> (yes: bool) {
        *self == *other
    }
}

/// The actions that are open in a state.
pub trait StateActionsMap {
    type State;

    type Action;

    /// The actions open in `current`, in the order in which a search tries them.
    /// An empty sequence marks a dead end.
    spec fn actions_spec(&self, current: &Self::State) -> Seq<Self::Action>;

    /// The actions open in `current`, each of them once.
    fn actions(&self, current: &Self::State) -> (found: Vec<Self::Action>)
        ensures
            found@ == self.actions_spec(current),
            found@.no_duplicates(),
    ;
}

/// Where an action leads.
pub trait Transition {
    type State;

    type Action;

    /// The state that `action` leads to from `current`.
    spec fn transition_spec(&self, current: &Self::State, action: &Self::Action) -> Self::State;

    fn transition(&self, current: &Self::State, action: &Self::Action) -> (next: Self::State)
        ensures
            next == self.transition_spec(current, action),
    ;
}

/// Which states are goals.
pub trait GoalTest {
    type State;

    spec fn is_goal_spec(&self, s: &Self::State) -> bool;

    fn is_goal(&self, s: &Self::State) -> (yes: bool)
        ensures
            yes == self.is_goal_spec(s),
    ;
}

/// What an action costs.
pub trait PathCostSource {
    type State;

    type Action;

    type CostType;

    /// The cost of taking `action` in `current`.
    spec fn cost_spec(&self, current: &Self::State, action: &Self::Action) -> Self::CostType;

    fn cost(&self, current: &Self::State, action: &Self::Action) -> (c: Self::CostType)
        ensures
            c == self.cost_spec(current, action),
    ;
}

/// `items` with each value at its first place only.
pub open spec fn without_repeats(items: Seq<u64>) -> Seq<u64>
    decreases items.len(),
{
    if items.len() == 0 {
        Seq::empty()
    } else if without_repeats(items.drop_last()).contains(items.last()) {
        without_repeats(items.drop_last())
    } else {
        without_repeats(items.drop_last()).push(items.last())
    }
}

/// A sequence with one more value at its end holds that value and what it held
/// before.
proof fn lemma_push_holds(items: Seq<u64>, last: u64, x: u64)
    ensures
        items.push(last).contains(x) <==> items.contains(x) || x == last,
{
    let more = items.push(last);
    if items.contains(x) {
        let at = choose|at: int| 0 <= at < items.len() && items[at] == x;
        assert(more[at] == x);
    }
    if x == last {
        assert(more[items.len() as int] == x);
    }
    if more.contains(x) {
        let at = choose|at: int| 0 <= at < more.len() && more[at] == x;
        if at < items.len() {
            assert(items[at] == x);
        }
    }
}

/// `without_repeats` holds no value twice, and holds the values that `items`
/// holds.
pub proof fn lemma_without_repeats(items: Seq<u64>)
    ensures
        without_repeats(items).no_duplicates(),
        forall|x: u64| without_repeats(items).contains(x) <==> items.contains(x),
    decreases items.len(),
{
    if items.len() > 0 {
        let before = items.drop_last();
        let last = items.last();
        lemma_without_repeats(before);
        assert(items =~= before.push(last));
        assert forall|x: u64| without_repeats(items).contains(x) <==> items.contains(x) by {
            lemma_push_holds(before, last, x);
            lemma_push_holds(without_repeats(before), last, x);
            assert(without_repeats(before).contains(x) <==> before.contains(x));
            assert(without_repeats(before).contains(last) <==> before.contains(last));
        }
    }
}

/// Whether `items` holds `value`.
fn holds(items: &Vec<u64>, value: u64) -> (found: bool)
    ensures
        found == items@.contains(value),
{
    let mut at: usize = 0;
    while at < items.len()
        invariant
            at <= items.len(),
            forall|i: int| 0 <= i < at ==> items[i] != value,
        decreases items.len() - at,
    {
        if items[at] == value {
            return true;
        }
        at += 1;
    }
    false
}

/// A table from states to the actions open in each. An action that the table
/// lists more than once for a state is open there once. In a state that the
/// table does not hold, no action is open.
impl StateActionsMap for HashMap<u64, Vec<u64>> {
    type State = u64;

    type Action = u64;

    open spec fn actions_spec(&self, current: &u64) -> Seq<u64> {
        if self@.contains_key(*current) {
            without_repeats(self@[*current]@)
        } else {
            Seq::empty()
        }
    }

    fn actions(&self, current: &u64) -> (found: Vec<u64>)
        ensures
            forall|x: u64|
                found@.contains(x) <==> self@.contains_key(*current) && self@[*current]@.contains(
                    x,
                ),
    {
        broadcast use vstd::std_specs::hash::group_hash_axioms;

        let mut action_set: Vec<u64> = Vec::new();
        if let Some(actions) = self.get(current) {
            let mut at: usize = 0;
            while at < actions.len()
                invariant
                    at <= actions.len(),
                    action_set@ == without_repeats(actions@.take(at as int)),
                decreases actions.len() - at,
            {
                assert(actions@.take(at + 1).drop_last() =~= actions@.take(at as int));
                let action = actions[at];
                if !holds(&action_set, action) {
                    action_set.push(action);
                }
                at += 1;
            }
            assert(actions@.take(at as int) =~= actions@);
            proof {
                lemma_without_repeats(actions@);
            }
        }
        action_set
    }
}

/// A function as the actions of a problem.
#[verifier::reject_recursive_types(S)]
#[verifier::reject_recursive_types(A)]
pub struct StateActionsFn<S, A, F: Fn(&S) -> Vec<A>> {
    run: F,
    model: Ghost<spec_fn(S) -> Seq<A>>,
}

impl<S, A, F: Fn(&S) -> Vec<A>> StateActionsFn<S, A, F> {
    /// The function can be called on every state, and returns what the model
    /// says.
    #[verifier::type_invariant]
    spec fn faithful(self) -> bool {
        &&& forall|s: S| #[trigger] call_requires(self.run, (&s,))
        &&& forall|s: S, found: Vec<A>| #[trigger]
            call_ensures(self.run, (&s,), found) ==> found@ == (self.model@)(s)
                && found@.no_duplicates()
    }

    /// The mathematical function that the executable one computes.
    pub closed spec fn model(&self) -> spec_fn(S) -> Seq<A> {
        self.model@
    }

    /// `run` with the function `model` that it is known to compute.
    pub fn new(run: F, Ghost(model): Ghost<spec_fn(S) -> Seq<A>>) -> (made: Self)
        requires
            forall|s: S| #[trigger] call_requires(run, (&s,)),
            forall|s: S, found: Vec<A>| #[trigger]
                call_ensures(run, (&s,), found) ==> found@ == model(s) && found@.no_duplicates(),
        ensures
            made.model() == model,
    {
        StateActionsFn { run, model: Ghost(model) }
    }

    /// `run`, of which all that is known is that it can be called on every state,
    /// that its result depends on the state alone and that it returns no action
    /// twice.
    pub fn from_fn(run: F) -> (made: Self)
        requires
            forall|s: S| #[trigger] call_requires(run, (&s,)),
            forall|s: S, one: Vec<A>, other: Vec<A>|
                #![trigger call_ensures(run, (&s,), one), call_ensures(run, (&s,), other)]
                call_ensures(run, (&s,), one) && call_ensures(run, (&s,), other) ==> one@
                    == other@,
            forall|s: S, found: Vec<A>| #[trigger]
                call_ensures(run, (&s,), found) ==> found@.no_duplicates(),
        ensures
            forall|s: S, found: Vec<A>| #[trigger]
                call_ensures(run, (&s,), found) ==> found@ == (made.model())(s),
    {
        let ghost model = |s: S| (choose|found: Vec<A>| call_ensures(run, (&s,), found))@;
        StateActionsFn { run, model: Ghost(model) }
    }
}

impl<S, A, F: Fn(&S) -> Vec<A>> StateActionsFn<S, A, F> {
    /// The actions open in a state are what the model gives for it.
    pub proof fn lemma_actions(&self, s: S)
        ensures
            self.actions_spec(&s) == (self.model())(s),
    {
    }
}

impl<S, A, F: Fn(&S) -> Vec<A>> StateActionsMap for StateActionsFn<S, A, F> {
    type State = S;

    type Action = A;

    open spec fn actions_spec(&self, current: &S) -> Seq<A> {
        (self.model())(*current)
    }

    fn actions(&self, current: &S) -> (found: Vec<A>) {
        proof {
            use_type_invariant(self);
        }
        (self.run)(current)
    }
}

/// A function as the goal test of a problem.
#[verifier::reject_recursive_types(S)]
pub struct GoalTestFn<S, F: Fn(&S) -> bool> {
    run: F,
    model: Ghost<spec_fn(S) -> bool>,
}

impl<S, F: Fn(&S) -> bool> GoalTestFn<S, F> {
    /// The function can be called on every state, and returns what the model
    /// says.
    #[verifier::type_invariant]
    spec fn faithful(self) -> bool {
        &&& forall|s: S| #[trigger] call_requires(self.run, (&s,))
        &&& forall|s: S, yes: bool| #[trigger]
            call_ensures(self.run, (&s,), yes) ==> yes == (self.model@)(s)
    }

    /// The mathematical function that the executable one computes.
    pub closed spec fn model(&self) -> spec_fn(S) -> bool {
        self.model@
    }

    /// `run` with the function `model` that it is known to compute.
    pub fn new(run: F, Ghost(model): Ghost<spec_fn(S) -> bool>) -> (made: Self)
        requires
            forall|s: S| #[trigger] call_requires(run, (&s,)),
            forall|s: S, yes: bool| #[trigger]
                call_ensures(run, (&s,), yes) ==> yes == model(s),
        ensures
            made.model() == model,
    {
        GoalTestFn { run, model: Ghost(model) }
    }

    /// `run`, of which all that is known is that it can be called on every state
    /// and that its result depends on the state alone.
    pub fn from_fn(run: F) -> (made: Self)
        requires
            forall|s: S| #[trigger] call_requires(run, (&s,)),
            forall|s: S, one: bool, other: bool|
                #![trigger call_ensures(run, (&s,), one), call_ensures(run, (&s,), other)]
                call_ensures(run, (&s,), one) && call_ensures(run, (&s,), other) ==> one == other,
        ensures
            forall|s: S, yes: bool| #[trigger]
                call_ensures(run, (&s,), yes) ==> yes == (made.model())(s),
    {
        let ghost model = |s: S| choose|yes: bool| call_ensures(run, (&s,), yes);
        GoalTestFn { run, model: Ghost(model) }
    }
}

impl<S, F: Fn(&S) -> bool> GoalTestFn<S, F> {
    /// A state is a goal where the model says so.
    pub proof fn lemma_is_goal(&self, s: S)
        ensures
            self.is_goal_spec(&s) == (self.model())(s),
    {
    }
}

impl<S, F: Fn(&S) -> bool> GoalTest for GoalTestFn<S, F> {
    type State = S;

    open spec fn is_goal_spec(&self, s: &S) -> bool {
        (self.model())(*s)
    }

    fn is_goal(&self, s: &S) -> (yes: bool) {
        proof {
            use_type_invariant(self);
        }
        (self.run)(s)
    }
}

/// A function as the cost source of a problem.
#[verifier::reject_recursive_types(S)]
#[verifier::reject_recursive_types(A)]
#[verifier::reject_recursive_types(T)]
pub struct PathCostFn<S, A, T, F: Fn(&S, &A) -> T> {
    run: F,
    model: Ghost<spec_fn(S, A) -> T>,
}

impl<S, A, T, F: Fn(&S, &A) -> T> PathCostFn<S, A, T, F> {
    /// The function can be called on every state and action, and returns what
    /// the model says.
    #[verifier::type_invariant]
    spec fn faithful(self) -> bool {
        &&& forall|s: S, a: A| #[trigger] call_requires(self.run, (&s, &a))
        &&& forall|s: S, a: A, c: T| #[trigger]
            call_ensures(self.run, (&s, &a), c) ==> c == (self.model@)(s, a)
    }

    /// The mathematical function that the executable one computes.
    pub closed spec fn model(&self) -> spec_fn(S, A) -> T {
        self.model@
    }

    /// `run` with the function `model` that it is known to compute.
    pub fn new(run: F, Ghost(model): Ghost<spec_fn(S, A) -> T>) -> (made: Self)
        requires
            forall|s: S, a: A| #[trigger] call_requires(run, (&s, &a)),
            forall|s: S, a: A, c: T| #[trigger]
                call_ensures(run, (&s, &a), c) ==> c == model(s, a),
        ensures
            made.model() == model,
    {
        PathCostFn { run, model: Ghost(model) }
    }

    /// `run`, of which all that is known is that it can be called on every state
    /// and action and that its result depends on them alone.
    pub fn from_fn(run: F) -> (made: Self)
        requires
            forall|s: S, a: A| #[trigger] call_requires(run, (&s, &a)),
            forall|s: S, a: A, one: T, other: T|
                #![trigger call_ensures(run, (&s, &a), one), call_ensures(run, (&s, &a), other)]
                call_ensures(run, (&s, &a), one) && call_ensures(run, (&s, &a), other) ==> one
                    == other,
        ensures
            forall|s: S, a: A, c: T| #[trigger]
                call_ensures(run, (&s, &a), c) ==> c == (made.model())(s, a),
    {
        let ghost model = |s: S, a: A| choose|c: T| call_ensures(run, (&s, &a), c);
        PathCostFn { run, model: Ghost(model) }
    }
}

impl<S, A, T, F: Fn(&S, &A) -> T> PathCostFn<S, A, T, F> {
    /// An action costs in a state what the model gives for them.
    pub proof fn lemma_cost(&self, s: S, a: A)
        ensures
            self.cost_spec(&s, &a) == (self.model())(s, a),
    {
    }
}

impl<S, A, T, F: Fn(&S, &A) -> T> PathCostSource for PathCostFn<S, A, T, F> {
    type State = S;

    type Action = A;

    type CostType = T;

    open spec fn cost_spec(&self, current: &S, action: &A) -> T {
        (self.model())(*current, *action)
    }

    fn cost(&self, current: &S, action: &A) -> (c: T) {
        proof {
            use_type_invariant(self);
        }
        (self.run)(current, action)
    }
}

/// A function as the transitions of a problem.
#[verifier::reject_recursive_types(S)]
#[verifier::reject_recursive_types(A)]
pub struct TransitionFn<S, A, F: Fn(&S, &A) -> S> {
    run: F,
    model: Ghost<spec_fn(S, A) -> S>,
}

impl<S, A, F: Fn(&S, &A) -> S> TransitionFn<S, A, F> {
    /// The function can be called on every state and action, and returns what
    /// the model says.
    #[verifier::type_invariant]
    spec fn faithful(self) -> bool {
        &&& forall|s: S, a: A| #[trigger] call_requires(self.run, (&s, &a))
        &&& forall|s: S, a: A, next: S| #[trigger]
            call_ensures(self.run, (&s, &a), next) ==> next == (self.model@)(s, a)
    }

    /// The mathematical function that the executable one computes.
    pub closed spec fn model(&self) -> spec_fn(S, A) -> S {
        self.model@
    }

    /// `run` with the function `model` that it is known to compute.
    pub fn new(run: F, Ghost(model): Ghost<spec_fn(S, A) -> S>) -> (made: Self)
        requires
            forall|s: S, a: A| #[trigger] call_requires(run, (&s, &a)),
            forall|s: S, a: A, next: S| #[trigger]
                call_ensures(run, (&s, &a), next) ==> next == model(s, a),
        ensures
            made.model() == model,
    {
        TransitionFn { run, model: Ghost(model) }
    }

    /// `run`, of which all that is known is that it can be called on every state
    /// and action and that its result depends on them alone.
    pub fn from_fn(run: F) -> (made: Self)
        requires
            forall|s: S, a: A| #[trigger] call_requires(run, (&s, &a)),
            forall|s: S, a: A, one: S, other: S|
                #![trigger call_ensures(run, (&s, &a), one), call_ensures(run, (&s, &a), other)]
                call_ensures(run, (&s, &a), one) && call_ensures(run, (&s, &a), other) ==> one
                    == other,
        ensures
            forall|s: S, a: A, next: S| #[trigger]
                call_ensures(run, (&s, &a), next) ==> next == (made.model())(s, a),
    {
        let ghost model = |s: S, a: A| choose|next: S| call_ensures(run, (&s, &a), next);
        TransitionFn { run, model: Ghost(model) }
    }
}

impl<S, A, F: Fn(&S, &A) -> S> TransitionFn<S, A, F> {
    /// An action leads from a state where the model says.
    pub proof fn lemma_transition(&self, s: S, a: A)
        ensures
            self.transition_spec(&s, &a) == (self.model())(s, a),
    {
    }
}

impl<S, A, F: Fn(&S, &A) -> S> Transition for TransitionFn<S, A, F> {
    type State = S;

    type Action = A;

    open spec fn transition_spec(&self, current: &S, action: &A) -> S {
        (self.model())(*current, *action)
    }

    fn transition(&self, current: &S, action: &A) -> (next: S) {
        proof {
            use_type_invariant(self);
        }
        (self.run)(current, action)
    }
}

/// The cost source under which every action costs one.
pub struct UniformPathCost<S, A, T>(pub PhantomData<(S, A, T)>);

impl<S, A, T> Default for UniformPathCost<S, A, T> {
    fn default() -> (made: Self)
        ensures
            made == UniformPathCost::<S, A, T>(PhantomData),
    {
        UniformPathCost(PhantomData)
    }
}

impl<S, A> PathCostSource for UniformPathCost<S, A, isize> {
    type State = S;

    type Action = A;

    type CostType = isize;

    open spec fn cost_spec(&self, current: &S, action: &A) -> isize {
        1
    }

    fn cost(&self, _current: &S, _action: &A) -> (c: isize) {
        1
    }
}

/// A search problem: the start and the four capabilities.
pub struct Problem<A, T, G, C> where
    A: StateActionsMap,
    T: Transition<State = A::State, Action = A::Action>,
    G: GoalTest<State = A::State>,
    C: PathCostSource<State = A::State, Action = A::Action>,
 {
    pub initial_state: A::State,
    pub actions: A,
    pub transition_model: T,
    pub goal: G,
    pub path_cost: C,
}

impl<A, T, G, C> Problem<A, T, G, C> where
    A: StateActionsMap,
    A::State: SearchState,
    T: Transition<State = A::State, Action = A::Action>,
    G: GoalTest<State = A::State>,
    C: PathCostSource<State = A::State, Action = A::Action, CostType = isize>,
 {
    /// The state in which one stands after taking the actions of `route` in order
    /// from the start.
    pub open spec fn run(&self, route: Seq<A::Action>) -> A::State
        decreases route.len(),
    {
        if route.len() == 0 {
            self.initial_state
        } else {
            self.transition_model.transition_spec(&self.run(route.drop_last()), &route.last())
        }
    }

    /// `action` is open where `route` ends, and `route` is itself a route.
    pub open spec fn extends(&self, route: Seq<A::Action>, action: A::Action) -> bool {
        self.is_route(route) && self.actions.actions_spec(&self.run(route)).contains(action)
    }

    /// Every action of `route` is open in the state in which it is taken.
    pub open spec fn is_route(&self, route: Seq<A::Action>) -> bool
        decreases route.len(),
    {
        route.len() == 0 || (self.is_route(route.drop_last())
            && self.actions.actions_spec(&self.run(route.drop_last())).contains(route.last()))
    }

    /// The cost of taking `action` where `route` ends.
    pub open spec fn step_cost(&self, route: Seq<A::Action>, action: A::Action) -> int {
        self.path_cost.cost_spec(&self.run(route), &action) as int
    }

    /// The sum of the costs of the actions of `route`, each taken in the state that
    /// the actions before it lead to.
    pub open spec fn route_cost(&self, route: Seq<A::Action>) -> int
        decreases route.len(),
    {
        if route.len() == 0 {
            0
        } else {
            self.route_cost(route.drop_last()) + self.step_cost(route.drop_last(), route.last())
        }
    }

    /// The keys of the states that `route` passes, the start first and the state
    /// in which it ends last.
    pub open spec fn trail(&self, route: Seq<A::Action>) -> Seq<u64>
        decreases route.len(),
    {
        if route.len() == 0 {
            seq![self.initial_state.key_spec()]
        } else {
            self.trail(route.drop_last()).push(self.run(route).key_spec())
        }
    }

    /// `route` is a route and ends in a goal.
    pub open spec fn leads_to_goal(&self, route: Seq<A::Action>) -> bool {
        self.is_route(route) && self.goal.is_goal_spec(&self.run(route))
    }

    /// `route` ends in another state than the start.
    pub open spec fn leaves_start(&self, route: Seq<A::Action>) -> bool {
        self.run(route) != self.initial_state
    }

    /// States that can be reached and have the same key are the same state.
    pub open spec fn keys_tell_apart(&self) -> bool {
        forall|r1: Seq<A::Action>, r2: Seq<A::Action>|
            #![trigger self.run(r1), self.run(r2)]
            self.is_route(r1) && self.is_route(r2) && self.run(r1).key_spec() == self.run(
                r2,
            ).key_spec() ==> self.run(r1) == self.run(r2)
    }

    /// No action costs less than nothing where it can be taken.
    pub open spec fn costs_nonnegative(&self) -> bool {
        forall|route: Seq<A::Action>, action: A::Action|
            self.extends(route, action) ==> 0 <= #[trigger] self.step_cost(route, action)
    }

    /// The accumulated cost of every node that a search makes can be held: a route
    /// that passes no state twice, and one more action after it, cost no more than
    /// `isize` can hold.
    pub open spec fn costs_fit(&self) -> bool {
        forall|route: Seq<A::Action>, action: A::Action|
            self.extends(route, action) && self.trail(route).no_duplicates() ==> isize::MIN
                <= self.route_cost(route) + #[trigger] self.step_cost(route, action) <= isize::MAX
    }

    /// The route without actions is a route: it ends where it starts, costs
    /// nothing and passes the start alone.
    pub proof fn lemma_route_empty(&self)
        ensures
            self.is_route(Seq::empty()),
            self.run(Seq::empty()) == self.initial_state,
            self.route_cost(Seq::empty()) == 0,
            self.trail(Seq::empty()) == seq![self.initial_state.key_spec()],
    {
    }

    /// What taking one more action does to where a route ends, to whether it is a
    /// route, to its cost and to its trail.
    pub proof fn lemma_route_push(&self, route: Seq<A::Action>, action: A::Action)
        ensures
            self.run(route.push(action)) == self.transition_model.transition_spec(
                &self.run(route),
                &action,
            ),
            self.is_route(route.push(action)) == self.extends(route, action),
            self.route_cost(route.push(action)) == self.route_cost(route) + self.step_cost(
                route,
                action,
            ),
            self.trail(route.push(action)) == self.trail(route).push(
                self.run(route.push(action)).key_spec(),
            ),
    {
        assert(route.push(action).drop_last() =~= route);
        assert(route.push(action).last() == action);
    }

    /// The trail of a route has one key more than the route has actions, and its
    /// last key is that of the state in which the route ends.
    pub proof fn lemma_trail_shape(&self, route: Seq<A::Action>)
        ensures
            self.trail(route).len() == route.len() + 1,
            self.trail(route).last() == self.run(route).key_spec(),
        decreases route.len(),
    {
        if route.len() > 0 {
            self.lemma_trail_shape(route.drop_last());
        }
    }

    /// Every key on the trail of a route is the key of a state which a route
    /// reaches.
    pub proof fn lemma_trail_reached(&self, route: Seq<A::Action>, at: int)
        requires
            self.is_route(route),
            0 <= at <= route.len(),
        ensures
            self.trail(route).len() == route.len() + 1,
            self.is_route(route.take(at)),
            self.trail(route)[at] == self.run(route.take(at)).key_spec(),
        decreases route.len(),
    {
        self.lemma_trail_shape(route);
        if at == route.len() {
            assert(route.take(at) =~= route);
        } else {
            self.lemma_trail_reached(route.drop_last(), at);
            assert(route.drop_last().take(at) =~= route.take(at));
        }
    }

    /// A property that holds of the start, and of the state after every action
    /// taken where it holds, holds wherever a route ends.
    pub proof fn lemma_reached_states(
        &self,
        holds: spec_fn(A::State) -> bool,
        route: Seq<A::Action>,
    )
        requires
            holds(self.initial_state),
            forall|s: A::State, a: A::Action|
                holds(s) && self.actions.actions_spec(&s).contains(a) ==> holds(
                    #[trigger] self.transition_model.transition_spec(&s, &a),
                ),
            self.is_route(route),
        ensures
            holds(self.run(route)),
        decreases route.len(),
    {
        if route.len() > 0 {
            self.lemma_reached_states(holds, route.drop_last());
        }
    }

    /// Keys tell the reachable states apart as soon as they tell apart the states
    /// of which a property holds that the start has and every action keeps.
    pub proof fn lemma_keys_tell_apart(&self, holds: spec_fn(A::State) -> bool)
        requires
            holds(self.initial_state),
            forall|s: A::State, a: A::Action|
                holds(s) && self.actions.actions_spec(&s).contains(a) ==> holds(
                    #[trigger] self.transition_model.transition_spec(&s, &a),
                ),
            forall|s: A::State, t: A::State|
                holds(s) && holds(t) && #[trigger] s.key_spec() == #[trigger] t.key_spec() ==> s
                    == t,
        ensures
            self.keys_tell_apart(),
    {
        assert forall|r1: Seq<A::Action>, r2: Seq<A::Action>|
            #![trigger self.run(r1), self.run(r2)]
            self.is_route(r1) && self.is_route(r2) && self.run(r1).key_spec() == self.run(
                r2,
            ).key_spec() implies self.run(r1) == self.run(r2) by {
            self.lemma_reached_states(holds, r1);
            self.lemma_reached_states(holds, r2);
        }
    }

    /// A route costs, in either direction, no more than its length times the most
    /// that one action costs.
    pub proof fn lemma_cost_within(&self, route: Seq<A::Action>, step: nat)
        requires
            self.is_route(route),
            forall|r: Seq<A::Action>, a: A::Action|
                self.extends(r, a) ==> -step <= #[trigger] self.step_cost(r, a) <= step,
        ensures
            -(route.len() * step) <= self.route_cost(route) <= route.len() * step,
        decreases route.len(),
    {
        if route.len() > 0 {
            let before = route.drop_last();
            self.lemma_cost_within(before, step);
            assert(self.extends(before, route.last()));
            assert(route.len() * step == before.len() * step + step) by (nonlinear_arith)
                requires
                    route.len() == before.len() + 1,
            ;
        }
    }

    /// Where every action costs one, a route costs as much as it has actions.
    pub proof fn lemma_unit_costs(&self, route: Seq<A::Action>)
        requires
            self.is_route(route),
            forall|r: Seq<A::Action>, a: A::Action|
                self.extends(r, a) ==> #[trigger] self.step_cost(r, a) == 1,
        ensures
            self.route_cost(route) == route.len(),
        decreases route.len(),
    {
        if route.len() > 0 {
            self.lemma_unit_costs(route.drop_last());
            assert(self.extends(route.drop_last(), route.last()));
        }
    }

    /// The costs fit where the keys of the states that can be reached lie under
    /// `states`, no action costs more than `step` in either direction, and
    /// `states` times `step` can be held.
    pub proof fn lemma_costs_fit(&self, states: nat, step: nat)
        requires
            forall|r: Seq<A::Action>|
                self.is_route(r) ==> (#[trigger] self.run(r)).key_spec() < states,
            forall|r: Seq<A::Action>, a: A::Action|
                self.extends(r, a) ==> -step <= #[trigger] self.step_cost(r, a) <= step,
            states * step <= isize::MAX,
        ensures
            self.costs_fit(),
    {
        assert forall|route: Seq<A::Action>, action: A::Action|
            self.extends(route, action) && self.trail(route).no_duplicates() implies isize::MIN
            <= self.route_cost(route) + #[trigger] self.step_cost(route, action)
            <= isize::MAX by {
            self.lemma_cost_within(route, step);
            if step > 0 {
                assert(states <= isize::MAX) by (nonlinear_arith)
                    requires
                        states * step <= isize::MAX,
                        step > 0,
                ;
                self.lemma_few_states(route, states);
                assert((route.len() + 1) * step <= states * step) by (nonlinear_arith)
                    requires
                        route.len() + 1 <= states,
                ;
                assert((route.len() + 1) * step == route.len() * step + step)
                    by (nonlinear_arith);
            } else {
                assert(route.len() * step == 0) by (nonlinear_arith)
                    requires
                        step == 0,
                ;
            }
        }
    }

    /// The costs fit where the states that can be reached have ranks under
    /// `states`, states of one rank have one key, no action costs more than `step`
    /// in either direction, and `states` times `step` can be held. A rank may
    /// count the states more closely than their keys do.
    pub proof fn lemma_costs_fit_by_rank(
        &self,
        rank: spec_fn(A::State) -> int,
        states: nat,
        step: nat,
    )
        requires
            forall|r: Seq<A::Action>|
                self.is_route(r) ==> 0 <= rank(#[trigger] self.run(r)) < states,
            forall|r1: Seq<A::Action>, r2: Seq<A::Action>|
                #![trigger self.run(r1), self.run(r2)]
                self.is_route(r1) && self.is_route(r2) && rank(self.run(r1)) == rank(
                    self.run(r2),
                ) ==> self.run(r1).key_spec() == self.run(r2).key_spec(),
            forall|r: Seq<A::Action>, a: A::Action|
                self.extends(r, a) ==> -step <= #[trigger] self.step_cost(r, a) <= step,
            states * step <= isize::MAX,
        ensures
            self.costs_fit(),
    {
        assert forall|route: Seq<A::Action>, action: A::Action|
            self.extends(route, action) && self.trail(route).no_duplicates() implies isize::MIN
            <= self.route_cost(route) + #[trigger] self.step_cost(route, action)
            <= isize::MAX by {
            self.lemma_cost_within(route, step);
            self.lemma_few_ranks(rank, route, states);
            assert((route.len() + 1) * step <= states * step) by (nonlinear_arith)
                requires
                    route.len() + 1 <= states,
            ;
            assert((route.len() + 1) * step == route.len() * step + step) by (nonlinear_arith);
        }
    }

    /// A route that passes no state twice passes no more states than there are
    /// ranks.
    proof fn lemma_few_ranks(
        &self,
        rank: spec_fn(A::State) -> int,
        route: Seq<A::Action>,
        states: nat,
    )
        requires
            self.is_route(route),
            self.trail(route).no_duplicates(),
            forall|r: Seq<A::Action>|
                self.is_route(r) ==> 0 <= rank(#[trigger] self.run(r)) < states,
            forall|r1: Seq<A::Action>, r2: Seq<A::Action>|
                #![trigger self.run(r1), self.run(r2)]
                self.is_route(r1) && self.is_route(r2) && rank(self.run(r1)) == rank(
                    self.run(r2),
                ) ==> self.run(r1).key_spec() == self.run(r2).key_spec(),
        ensures
            route.len() + 1 <= states,
    {
        let ranks = Seq::new((route.len() + 1) as nat, |i: int| rank(self.run(route.take(i))));
        let under = vstd::set_lib::set_int_range(0, states as int);
        assert forall|i: int, j: int| 0 <= i < ranks.len() && 0 <= j < ranks.len() && i
            != j implies ranks[i] != ranks[j] by {
            self.lemma_trail_reached(route, i);
            self.lemma_trail_reached(route, j);
            if ranks[i] == ranks[j] {
                assert(self.run(route.take(i)).key_spec() == self.run(route.take(j)).key_spec());
                assert(self.trail(route)[i] == self.trail(route)[j]);
            }
        }
        ranks.unique_seq_to_set();
        vstd::set_lib::lemma_int_range(0, states as int);
        assert forall|k: int| ranks.to_set().contains(k) implies under.contains(k) by {
            let at = choose|at: int| 0 <= at < ranks.len() && ranks[at] == k;
            self.lemma_trail_reached(route, at);
        }
        vstd::set_lib::lemma_len_subset(ranks.to_set(), under);
    }

    /// A route that passes no state twice passes no more states than there are
    /// keys.
    proof fn lemma_few_states(&self, route: Seq<A::Action>, states: nat)
        requires
            self.is_route(route),
            self.trail(route).no_duplicates(),
            forall|r: Seq<A::Action>|
                self.is_route(r) ==> (#[trigger] self.run(r)).key_spec() < states,
            states <= u64::MAX,
        ensures
            route.len() + 1 <= states,
    {
        let passed = self.trail(route);
        let under = <u64 as vstd::set_lib::FiniteRange>::range_set(0, states as u64);
        self.lemma_trail_shape(route);
        passed.unique_seq_to_set();
        vstd::set_lib::range_set_properties::<u64>(0, states as u64);
        assert forall|k: u64| passed.to_set().contains(k) implies under.contains(k) by {
            let at = choose|at: int| 0 <= at < passed.len() && passed[at] == k;
            self.lemma_trail_reached(route, at);
            assert(self.run(route.take(at)).key_spec() < states);
        }
        vstd::set_lib::lemma_len_subset(passed.to_set(), under);
    }
}

} // verus!
