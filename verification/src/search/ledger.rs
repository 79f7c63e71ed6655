//! The bookkeeping that both searches share, as mathematics.
//!
//! A ledger says of each key whether its state is settled (it left the frontier
//! and its actions were tried) or open (it waits in the frontier), and with what
//! weight: the number of actions on the way to it for the search that counts
//! actions, their cost for the search that counts cost. From what a search keeps
//! true of its ledger follows how little any route can weigh.

use crate::problem::{GoalTest, PathCostSource, Problem, SearchState, StateActionsMap, Transition};
use crate::search::Node;
use vstd::prelude::*;

verus! {

/// What a search knows of the keys it has met.
pub ghost struct Ledger {
    /// The keys whose states were expanded, each with the weight at which it left
    /// the frontier.
    pub settled: Map<u64, int>,
    /// The keys that wait in the frontier, each with the weight of its node.
    pub open: Map<u64, int>,
}

/// What one action weighs in `state`: its cost, or one.
pub open spec fn step_weight<A, T, G, C>(
    problem: &Problem<A, T, G, C>,
    by_cost: bool,
    state: A::State,
    action: A::Action,
) -> int where
    A: StateActionsMap,
    A::State: SearchState,
    T: Transition<State = A::State, Action = A::Action>,
    G: GoalTest<State = A::State>,
    C: PathCostSource<State = A::State, Action = A::Action, CostType = isize>,
 {
    if by_cost {
        problem.path_cost.cost_spec(&state, &action) as int
    } else {
        1
    }
}

/// What a route weighs: its cost, or the number of its actions.
pub open spec fn route_weight<A, T, G, C>(
    problem: &Problem<A, T, G, C>,
    by_cost: bool,
    route: Seq<A::Action>,
) -> int where
    A: StateActionsMap,
    A::State: SearchState,
    T: Transition<State = A::State, Action = A::Action>,
    G: GoalTest<State = A::State>,
    C: PathCostSource<State = A::State, Action = A::Action, CostType = isize>,
 {
    if by_cost {
        problem.route_cost(route)
    } else {
        route.len() as int
    }
}

impl Ledger {
    /// The ledger holds `key`, settled or open, with a weight of at most `bound`.
    pub open spec fn covers(&self, key: u64, bound: int) -> bool {
        (self.settled.contains_key(key) && self.settled[key] <= bound) || (self.open.contains_key(
            key,
        ) && self.open[key] <= bound)
    }

    /// Nothing that `self` holds is lost in `later`: what was settled is settled
    /// with the same weight, and what was open is open or settled with no more
    /// weight than before.
    pub open spec fn advances_to(&self, later: Ledger) -> bool {
        &&& forall|k: u64| #[trigger]
            self.settled.contains_key(k) ==> later.settled.contains_key(k) && later.settled[k]
                == self.settled[k]
        &&& forall|k: u64| #[trigger]
            self.open.contains_key(k) ==> later.covers(k, self.open[k])
    }

    /// The first `upto` of the actions open in `state` lead to keys that the
    /// ledger holds, each with no more weight than `base` and the action.
    pub open spec fn tried<A, T, G, C>(
        &self,
        problem: &Problem<A, T, G, C>,
        by_cost: bool,
        state: A::State,
        base: int,
        upto: int,
    ) -> bool where
        A: StateActionsMap,
        A::State: SearchState,
        T: Transition<State = A::State, Action = A::Action>,
        G: GoalTest<State = A::State>,
        C: PathCostSource<State = A::State, Action = A::Action, CostType = isize>,
     {
        forall|j: int|
            #![trigger problem.actions.actions_spec(&state)[j]]
            0 <= j < upto && j < problem.actions.actions_spec(&state).len() ==> self.covers(
                problem.transition_model.transition_spec(
                    &state,
                    &problem.actions.actions_spec(&state)[j],
                ).key_spec(),
                base + step_weight(problem, by_cost, state, problem.actions.actions_spec(&state)[j]),
            )
    }

    /// Where `route` ends in a settled state, all the actions open there were tried.
    pub open spec fn closed_at<A, T, G, C>(
        &self,
        problem: &Problem<A, T, G, C>,
        by_cost: bool,
        route: Seq<A::Action>,
    ) -> bool where
        A: StateActionsMap,
        A::State: SearchState,
        T: Transition<State = A::State, Action = A::Action>,
        G: GoalTest<State = A::State>,
        C: PathCostSource<State = A::State, Action = A::Action, CostType = isize>,
     {
        problem.is_route(route) && self.settled.contains_key(problem.run(route).key_spec())
            ==> self.tried(
            problem,
            by_cost,
            problem.run(route),
            self.settled[problem.run(route).key_spec()],
            problem.actions.actions_spec(&problem.run(route)).len() as int,
        )
    }

    /// The start is held with no weight, and every settled state but the one with
    /// the key `hole`, if there is one, had all its actions tried.
    pub open spec fn sound<A, T, G, C>(
        &self,
        problem: &Problem<A, T, G, C>,
        by_cost: bool,
        hole: Option<u64>,
    ) -> bool where
        A: StateActionsMap,
        A::State: SearchState,
        T: Transition<State = A::State, Action = A::Action>,
        G: GoalTest<State = A::State>,
        C: PathCostSource<State = A::State, Action = A::Action, CostType = isize>,
     {
        &&& self.covers(problem.initial_state.key_spec(), 0)
        &&& forall|route: Seq<A::Action>|
            hole != Some(problem.run(route).key_spec()) ==> #[trigger] self.closed_at(
                problem,
                by_cost,
                route,
            )
    }

    /// Where `route` ends in a goal, the ledger does not hold the key of that
    /// state. That is said of the settled keys for the search by cost. For the
    /// search that counts actions it is said of the open keys too, and the start
    /// is left out, since that search never asks whether the start is a goal.
    pub open spec fn goal_free<A, T, G, C>(
        &self,
        problem: &Problem<A, T, G, C>,
        by_cost: bool,
        route: Seq<A::Action>,
    ) -> bool where
        A: StateActionsMap,
        A::State: SearchState,
        T: Transition<State = A::State, Action = A::Action>,
        G: GoalTest<State = A::State>,
        C: PathCostSource<State = A::State, Action = A::Action, CostType = isize>,
     {
        problem.leads_to_goal(route) && (self.settled.contains_key(problem.run(route).key_spec())
            || (!by_cost && self.open.contains_key(problem.run(route).key_spec()))) ==> !by_cost
            && !problem.leaves_start(route)
    }

    /// `node` may wait in the frontier: it records its route, the route passes no
    /// state twice, and every state that it passes before its end is settled.
    pub open spec fn waits<A, T, G, C>(
        &self,
        problem: &Problem<A, T, G, C>,
        node: Node<A::State, A::Action>,
    ) -> bool where
        A: StateActionsMap,
        A::State: SearchState,
        T: Transition<State = A::State, Action = A::Action>,
        G: GoalTest<State = A::State>,
        C: PathCostSource<State = A::State, Action = A::Action, CostType = isize>,
     {
        &&& node.records(problem)
        &&& problem.trail(node.route()).no_duplicates()
        &&& forall|j: int|
            0 <= j < node.route().len() ==> self.settled.contains_key(
                #[trigger] problem.trail(node.route())[j],
            )
    }

    /// `node` has left the frontier: as `waits`, and the state in which its route
    /// ends is settled too.
    pub open spec fn left<A, T, G, C>(
        &self,
        problem: &Problem<A, T, G, C>,
        node: Node<A::State, A::Action>,
    ) -> bool where
        A: StateActionsMap,
        A::State: SearchState,
        T: Transition<State = A::State, Action = A::Action>,
        G: GoalTest<State = A::State>,
        C: PathCostSource<State = A::State, Action = A::Action, CostType = isize>,
     {
        &&& self.waits(problem, node)
        &&& self.settled.contains_key(node.state.key_spec())
    }

    /// The child of a node that has left the frontier may wait there, if its own
    /// state is not settled.
    pub proof fn lemma_child_waits<A, T, G, C>(
        &self,
        problem: &Problem<A, T, G, C>,
        parent: Node<A::State, A::Action>,
        action: A::Action,
        child: Node<A::State, A::Action>,
    ) where
        A: StateActionsMap,
        A::State: SearchState,
        T: Transition<State = A::State, Action = A::Action>,
        G: GoalTest<State = A::State>,
        C: PathCostSource<State = A::State, Action = A::Action, CostType = isize>,

        requires
            self.left(problem, parent),
            child.route() == parent.route().push(action),
            child.records(problem),
            !self.settled.contains_key(child.state.key_spec()),
        ensures
            self.waits(problem, child),
    {
        let way = parent.route();
        let passed = problem.trail(way);
        problem.lemma_route_push(way, action);
        problem.lemma_trail_shape(way);
        assert forall|j: int| 0 <= j <= way.len() implies self.settled.contains_key(
            #[trigger] passed[j],
        ) by {
            if j == way.len() {
                assert(passed[j] == passed.last());
            }
        }
        assert(problem.trail(child.route()) == passed.push(child.state.key_spec()));
    }

    /// Who waits still waits when more is settled.
    pub proof fn lemma_waits_later<A, T, G, C>(
        &self,
        later: Ledger,
        problem: &Problem<A, T, G, C>,
        node: Node<A::State, A::Action>,
    ) where
        A: StateActionsMap,
        A::State: SearchState,
        T: Transition<State = A::State, Action = A::Action>,
        G: GoalTest<State = A::State>,
        C: PathCostSource<State = A::State, Action = A::Action, CostType = isize>,

        requires
            self.waits(problem, node),
            forall|k: u64| #[trigger]
                self.settled.contains_key(k) ==> later.settled.contains_key(k),
        ensures
            later.waits(problem, node),
    {
    }

    /// The ledger stays free of goals when it comes to hold the key of one more
    /// state, reached by `way`, that is no goal.
    pub proof fn lemma_goal_free_later<A, T, G, C>(
        &self,
        later: Ledger,
        problem: &Problem<A, T, G, C>,
        by_cost: bool,
        way: Seq<A::Action>,
    ) where
        A: StateActionsMap,
        A::State: SearchState,
        T: Transition<State = A::State, Action = A::Action>,
        G: GoalTest<State = A::State>,
        C: PathCostSource<State = A::State, Action = A::Action, CostType = isize>,

        requires
            problem.keys_tell_apart(),
            forall|route: Seq<A::Action>| #[trigger] self.goal_free(problem, by_cost, route),
            problem.is_route(way),
            !problem.goal.is_goal_spec(&problem.run(way)),
            forall|k: u64| #[trigger]
                later.settled.contains_key(k) ==> self.settled.contains_key(k) || k == problem.run(
                    way,
                ).key_spec(),
            forall|k: u64| #[trigger]
                later.open.contains_key(k) ==> self.open.contains_key(k) || k == problem.run(
                    way,
                ).key_spec(),
        ensures
            forall|route: Seq<A::Action>| #[trigger] later.goal_free(problem, by_cost, route),
    {
        assert forall|route: Seq<A::Action>| #[trigger]
            later.goal_free(problem, by_cost, route) by {
            assert(self.goal_free(problem, by_cost, route));
            if problem.is_route(route) && problem.run(route).key_spec() == problem.run(
                way,
            ).key_spec() {
                assert(problem.run(route) == problem.run(way));
            }
        }
    }

    /// A route to a goal other than the start has more actions than any open
    /// state has behind it, where the ledger of the search that counts actions is
    /// sound and holds no such goal.
    pub proof fn lemma_goal_lies_deeper<A, T, G, C>(
        &self,
        problem: &Problem<A, T, G, C>,
        least: int,
        route: Seq<A::Action>,
    ) where
        A: StateActionsMap,
        A::State: SearchState,
        T: Transition<State = A::State, Action = A::Action>,
        G: GoalTest<State = A::State>,
        C: PathCostSource<State = A::State, Action = A::Action, CostType = isize>,

        requires
            self.sound(problem, false, None),
            forall|other: Seq<A::Action>| #[trigger] self.goal_free(problem, false, other),
            forall|k: u64| #[trigger] self.open.contains_key(k) ==> least <= self.open[k],
            problem.leads_to_goal(route),
            problem.leaves_start(route),
        ensures
            least + 1 <= route.len(),
    {
        let at = self.lemma_route_accounted(problem, false, route);
        assert(self.goal_free(problem, false, route));
        if at == route.len() {
            assert(route.take(at) =~= route);
        }
    }

    /// A route to a goal costs no less than the cheapest open state, where the
    /// ledger of the search by cost is sound and no settled state is a goal.
    pub proof fn lemma_goal_costs_more<A, T, G, C>(
        &self,
        problem: &Problem<A, T, G, C>,
        least: int,
        route: Seq<A::Action>,
    ) where
        A: StateActionsMap,
        A::State: SearchState,
        T: Transition<State = A::State, Action = A::Action>,
        G: GoalTest<State = A::State>,
        C: PathCostSource<State = A::State, Action = A::Action, CostType = isize>,

        requires
            problem.costs_nonnegative(),
            self.sound(problem, true, None),
            forall|other: Seq<A::Action>| #[trigger] self.goal_free(problem, true, other),
            forall|k: u64| #[trigger] self.open.contains_key(k) ==> least <= self.open[k],
            problem.leads_to_goal(route),
        ensures
            least <= problem.route_cost(route),
    {
        let at = self.lemma_route_accounted(problem, true, route);
        assert(self.goal_free(problem, true, route));
    }

    /// Once nothing is open, every route to a goal ends in a settled state: for
    /// the search by cost there is none, for the other it ends in the start.
    pub proof fn lemma_nothing_left<A, T, G, C>(
        &self,
        problem: &Problem<A, T, G, C>,
        by_cost: bool,
        route: Seq<A::Action>,
    ) where
        A: StateActionsMap,
        A::State: SearchState,
        T: Transition<State = A::State, Action = A::Action>,
        G: GoalTest<State = A::State>,
        C: PathCostSource<State = A::State, Action = A::Action, CostType = isize>,

        requires
            by_cost ==> problem.costs_nonnegative(),
            self.sound(problem, by_cost, None),
            forall|other: Seq<A::Action>| #[trigger] self.goal_free(problem, by_cost, other),
            forall|k: u64| !self.open.contains_key(k),
            problem.leads_to_goal(route),
        ensures
            !by_cost,
            !problem.leaves_start(route),
    {
        let at = self.lemma_route_accounted(problem, by_cost, route);
        assert(self.goal_free(problem, by_cost, route));
    }

    /// What a ledger that advanced still covers.
    pub proof fn lemma_covers_later(&self, later: Ledger, key: u64, bound: int)
        requires
            self.advances_to(later),
            self.covers(key, bound),
        ensures
            later.covers(key, bound),
    {
    }

    /// Actions that were tried stay tried as the ledger advances.
    pub proof fn lemma_tried_later<A, T, G, C>(
        &self,
        later: Ledger,
        problem: &Problem<A, T, G, C>,
        by_cost: bool,
        state: A::State,
        base: int,
        upto: int,
    ) where
        A: StateActionsMap,
        A::State: SearchState,
        T: Transition<State = A::State, Action = A::Action>,
        G: GoalTest<State = A::State>,
        C: PathCostSource<State = A::State, Action = A::Action, CostType = isize>,

        requires
            self.advances_to(later),
            self.tried(problem, by_cost, state, base, upto),
        ensures
            later.tried(problem, by_cost, state, base, upto),
    {
        let acts = problem.actions.actions_spec(&state);
        assert forall|j: int| #![trigger acts[j]] 0 <= j < upto && j < acts.len() implies later.covers(
            problem.transition_model.transition_spec(&state, &acts[j]).key_spec(),
            base + step_weight(problem, by_cost, state, acts[j]),
        ) by {
            self.lemma_covers_later(
                later,
                problem.transition_model.transition_spec(&state, &acts[j]).key_spec(),
                base + step_weight(problem, by_cost, state, acts[j]),
            );
        }
    }

    /// A sound ledger stays sound as it advances, but for the one key that may
    /// have been settled on the way.
    pub proof fn lemma_sound_later<A, T, G, C>(
        &self,
        later: Ledger,
        problem: &Problem<A, T, G, C>,
        by_cost: bool,
        hole: Option<u64>,
        later_hole: Option<u64>,
    ) where
        A: StateActionsMap,
        A::State: SearchState,
        T: Transition<State = A::State, Action = A::Action>,
        G: GoalTest<State = A::State>,
        C: PathCostSource<State = A::State, Action = A::Action, CostType = isize>,

        requires
            self.sound(problem, by_cost, hole),
            self.advances_to(later),
            hole is None || hole == later_hole,
            forall|k: u64| #[trigger]
                later.settled.contains_key(k) ==> self.settled.contains_key(k) || later_hole
                    == Some(k),
        ensures
            later.sound(problem, by_cost, later_hole),
    {
        self.lemma_covers_later(later, problem.initial_state.key_spec(), 0);
        assert forall|route: Seq<A::Action>|
            later_hole != Some(problem.run(route).key_spec()) implies #[trigger] later.closed_at(
            problem,
            by_cost,
            route,
        ) by {
            let end = problem.run(route);
            if problem.is_route(route) && later.settled.contains_key(end.key_spec()) {
                assert(self.settled.contains_key(end.key_spec()));
                assert(self.closed_at(problem, by_cost, route));
                self.lemma_tried_later(
                    later,
                    problem,
                    by_cost,
                    end,
                    self.settled[end.key_spec()],
                    problem.actions.actions_spec(&end).len() as int,
                );
            }
        }
    }

    /// Once all the actions of the state with the key `hole` were tried, the
    /// ledger is sound without exception.
    pub proof fn lemma_sound_whole<A, T, G, C>(
        &self,
        problem: &Problem<A, T, G, C>,
        by_cost: bool,
        hole: u64,
        way: Seq<A::Action>,
    ) where
        A: StateActionsMap,
        A::State: SearchState,
        T: Transition<State = A::State, Action = A::Action>,
        G: GoalTest<State = A::State>,
        C: PathCostSource<State = A::State, Action = A::Action, CostType = isize>,

        requires
            problem.keys_tell_apart(),
            self.sound(problem, by_cost, Some(hole)),
            problem.is_route(way),
            problem.run(way).key_spec() == hole,
            self.settled.contains_key(hole),
            self.tried(
                problem,
                by_cost,
                problem.run(way),
                self.settled[hole],
                problem.actions.actions_spec(&problem.run(way)).len() as int,
            ),
        ensures
            self.sound(problem, by_cost, None),
    {
        assert forall|route: Seq<A::Action>| #[trigger]
            self.closed_at(problem, by_cost, route) by {
            if problem.is_route(route) && problem.run(route).key_spec() == hole {
                assert(problem.run(route) == problem.run(way));
            }
        }
    }

    /// Every route ends in a settled state that weighs no more than the route, or
    /// passes, after `at` actions, an open state that weighs no more than the route
    /// up to there.
    pub proof fn lemma_route_accounted<A, T, G, C>(
        &self,
        problem: &Problem<A, T, G, C>,
        by_cost: bool,
        route: Seq<A::Action>,
    ) -> (at: int) where
        A: StateActionsMap,
        A::State: SearchState,
        T: Transition<State = A::State, Action = A::Action>,
        G: GoalTest<State = A::State>,
        C: PathCostSource<State = A::State, Action = A::Action, CostType = isize>,

        requires
            by_cost ==> problem.costs_nonnegative(),
            self.sound(problem, by_cost, None),
            problem.is_route(route),
        ensures
            0 <= at <= route.len(),
            problem.is_route(route.take(at)),
            route_weight(problem, by_cost, route.take(at)) <= route_weight(problem, by_cost, route),
            (at == route.len() && self.settled.contains_key(problem.run(route).key_spec())
                && self.settled[problem.run(route).key_spec()] <= route_weight(
                problem,
                by_cost,
                route,
            )) || (self.open.contains_key(problem.run(route.take(at)).key_spec())
                && self.open[problem.run(route.take(at)).key_spec()] <= route_weight(
                problem,
                by_cost,
                route.take(at),
            )),
        decreases route.len(),
    {
        if route.len() == 0 {
            assert(route.take(0) =~= route);
            0
        } else {
            let before = route.drop_last();
            let last = route.last();
            let from = problem.run(before);
            let met = self.lemma_route_accounted(problem, by_cost, before);
            assert(problem.extends(before, last));
            if by_cost {
                assert(0 <= problem.step_cost(before, last));
            }
            assert(route_weight(problem, by_cost, route) == route_weight(problem, by_cost, before)
                + step_weight(problem, by_cost, from, last));
            if self.open.contains_key(problem.run(before.take(met)).key_spec())
                && self.open[problem.run(before.take(met)).key_spec()] <= route_weight(
                problem,
                by_cost,
                before.take(met),
            ) {
                assert(before.take(met) =~= route.take(met));
                met
            } else {
                assert(before.take(met) =~= before);
                assert(self.closed_at(problem, by_cost, before));
                let acts = problem.actions.actions_spec(&from);
                let j = choose|j: int| 0 <= j < acts.len() && acts[j] == last;
                assert(acts[j] == last);
                assert(self.covers(
                    problem.run(route).key_spec(),
                    self.settled[from.key_spec()] + step_weight(problem, by_cost, from, last),
                ));
                assert(route.take(route.len() as int) =~= route);
                route.len() as int
            }
        }
    }
}

/// There are no more keys than `u64` has values.
pub proof fn lemma_keys_bounded(keys: Set<u64>)
    requires
        keys.finite(),
    ensures
        keys.len() <= 0x1_0000_0000_0000_0000,
{
    let below = <u64 as vstd::set_lib::FiniteRange>::range_set(0, u64::MAX);
    vstd::set_lib::range_set_properties::<u64>(0, u64::MAX);
    assert(keys.remove(u64::MAX).subset_of(below));
    vstd::set_lib::lemma_len_subset(keys.remove(u64::MAX), below);
}

} // verus!
