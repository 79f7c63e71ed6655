//! The world of two places and a vacuum cleaner: each place is dirty or clean,
//! the cleaner stands in one of them, and it can clean where it stands or move.

use crate::problem::{GoalTest, Problem, SearchState, StateActionsMap, Transition, UniformPathCost};
use std::marker::PhantomData;
use vstd::prelude::*;

verus! {

#[derive(Clone, Copy, Hash, PartialEq, Eq, Debug)]
pub enum Position {
    Left,
    Right,
}

#[derive(Clone, Copy, Hash, PartialEq, Eq, Debug)]
pub enum Cleanliness {
    Dirty,
    Clean,
}

/// Where the cleaner stands, and the state of the left and of the right place.
#[derive(Clone, Copy, Hash, PartialEq, Eq, Debug)]
pub struct VacuumeState {
    pub vacuume_position: Position,
    pub dirt_distribution: [Cleanliness; 2],
}

#[derive(Clone, Copy, Hash, PartialEq, Eq, Debug)]
pub enum VacuumeAction {
    Suck,
    Position { position: Position },
}

/// Zero for a dirty place, one for a clean one.
pub open spec fn cleanliness_digit(c: Cleanliness) -> int {
    match c {
        Cleanliness::Dirty => 0,
        Cleanliness::Clean => 1,
    }
}

/// Zero for the left place, one for the right one.
pub open spec fn position_digit(p: Position) -> int {
    match p {
        Position::Left => 0,
        Position::Right => 1,
    }
}

impl SearchState for VacuumeState {
    /// The three binary digits of the state: the position, then the left and
    /// the right place.
    open spec fn key_spec(&self) -> u64 {
        (4 * position_digit(self.vacuume_position) + 2 * cleanliness_digit(
            self.dirt_distribution[0],
        ) + cleanliness_digit(self.dirt_distribution[1])) as u64
    }

    fn key(&self) -> (k: u64) {
        let p: u64 = match self.vacuume_position {
            Position::Left => 0,
            Position::Right => 1,
        };
        let l: u64 = match self.dirt_distribution[0] {
            Cleanliness::Dirty => 0,
            Cleanliness::Clean => 1,
        };
        let r: u64 = match self.dirt_distribution[1] {
            Cleanliness::Dirty => 0,
            Cleanliness::Clean => 1,
        };
        4 * p + 2 * l + r
    }

    fn duplicate(&self) -> (twin: Self) {
        *self
    }

    fn same(&self, other: &Self) -> (yes: bool) {
        proof {
            if self.dirt_distribution[0] == other.dirt_distribution[0]
                && self.dirt_distribution[1] == other.dirt_distribution[1] {
                assert(self.dirt_distribution =~= other.dirt_distribution);
            }
        }
        same_position(self.vacuume_position, other.vacuume_position) && same_cleanliness(
            self.dirt_distribution[0],
            other.dirt_distribution[0],
        ) && same_cleanliness(self.dirt_distribution[1], other.dirt_distribution[1])
    }
}

/// Whether two positions are the same.
fn same_position(one: Position, other: Position) -> (yes: bool)
    ensures
        yes == (one == other),
{
    match (one, other) {
        (Position::Left, Position::Left) => true,
        (Position::Right, Position::Right) => true,
        _ => false,
    }
}

/// Whether two places are in the same state.
fn same_cleanliness(one: Cleanliness, other: Cleanliness) -> (yes: bool)
    ensures
        yes == (one == other),
{
    match (one, other) {
        (Cleanliness::Dirty, Cleanliness::Dirty) => true,
        (Cleanliness::Clean, Cleanliness::Clean) => true,
        _ => false,
    }
}

/// The state after `action`: cleaning makes the place clean where the cleaner
/// stands, moving puts the cleaner in the place named.
pub open spec fn vacuume_transition_spec(state: VacuumeState, action: VacuumeAction) -> VacuumeState {
    match action {
        VacuumeAction::Suck => match state.vacuume_position {
            Position::Left => VacuumeState {
                vacuume_position: state.vacuume_position,
                dirt_distribution: [Cleanliness::Clean, state.dirt_distribution[1]],
            },
            Position::Right => VacuumeState {
                vacuume_position: state.vacuume_position,
                dirt_distribution: [state.dirt_distribution[0], Cleanliness::Clean],
            },
        },
        VacuumeAction::Position { position } => VacuumeState {
            vacuume_position: position,
            dirt_distribution: state.dirt_distribution,
        },
    }
}

pub fn vacuume_transition(state: &VacuumeState, action: &VacuumeAction) -> (next: VacuumeState)
    ensures
        next == vacuume_transition_spec(*state, *action),
{
    match action {
        VacuumeAction::Suck => match state.vacuume_position {
            Position::Left => VacuumeState {
                vacuume_position: state.vacuume_position,
                dirt_distribution: [Cleanliness::Clean, state.dirt_distribution[1]],
            },
            Position::Right => VacuumeState {
                vacuume_position: state.vacuume_position,
                dirt_distribution: [state.dirt_distribution[0], Cleanliness::Clean],
            },
        },
        VacuumeAction::Position { position } => VacuumeState {
            vacuume_position: *position,
            dirt_distribution: state.dirt_distribution,
        },
    }
}

/// Both places are clean.
pub open spec fn vacuume_goal_spec(state: VacuumeState) -> bool {
    state.dirt_distribution[0] == Cleanliness::Clean && state.dirt_distribution[1]
        == Cleanliness::Clean
}

pub fn vacuume_goal_test(state: &VacuumeState) -> (clean: bool)
    ensures
        clean == vacuume_goal_spec(*state),
{
    let left = match state.dirt_distribution[0] {
        Cleanliness::Clean => true,
        Cleanliness::Dirty => false,
    };
    let right = match state.dirt_distribution[1] {
        Cleanliness::Clean => true,
        Cleanliness::Dirty => false,
    };
    left && right
}

/// The three actions, open in every state: clean, move left, move right.
pub open spec fn vacuume_actions_spec() -> Seq<VacuumeAction> {
    seq![
        VacuumeAction::Suck,
        VacuumeAction::Position { position: Position::Left },
        VacuumeAction::Position { position: Position::Right },
    ]
}

pub fn vacuume_actions(_state: &VacuumeState) -> (actions: Vec<VacuumeAction>)
    ensures
        actions@ == vacuume_actions_spec(),
        actions@.no_duplicates(),
{
    let mut actions = Vec::new();
    actions.push(VacuumeAction::Suck);
    actions.push(VacuumeAction::Position { position: Position::Left });
    actions.push(VacuumeAction::Position { position: Position::Right });
    assert(actions@ =~= vacuume_actions_spec());
    actions
}

/// The actions of the vacuum world, as a capability of a problem.
pub struct VacuumeActions;

/// The transitions of the vacuum world, as a capability of a problem.
pub struct VacuumeTransition;

/// The goal test of the vacuum world, as a capability of a problem.
pub struct VacuumeGoal;

impl StateActionsMap for VacuumeActions {
    type State = VacuumeState;

    type Action = VacuumeAction;

    open spec fn actions_spec(&self, current: &VacuumeState) -> Seq<VacuumeAction> {
        vacuume_actions_spec()
    }

    fn actions(&self, current: &VacuumeState) -> (found: Vec<VacuumeAction>) {
        vacuume_actions(current)
    }
}

impl Transition for VacuumeTransition {
    type State = VacuumeState;

    type Action = VacuumeAction;

    open spec fn transition_spec(&self, current: &VacuumeState, action: &VacuumeAction) -> VacuumeState {
        vacuume_transition_spec(*current, *action)
    }

    fn transition(&self, current: &VacuumeState, action: &VacuumeAction) -> (next: VacuumeState) {
        vacuume_transition(current, action)
    }
}

impl GoalTest for VacuumeGoal {
    type State = VacuumeState;

    open spec fn is_goal_spec(&self, s: &VacuumeState) -> bool {
        vacuume_goal_spec(*s)
    }

    fn is_goal(&self, s: &VacuumeState) -> (yes: bool) {
        vacuume_goal_test(s)
    }
}

pub type VacuumeWorld = Problem<
    VacuumeActions,
    VacuumeTransition,
    VacuumeGoal,
    UniformPathCost<VacuumeState, VacuumeAction, isize>,
>;

/// States with the same key are the same state.
pub proof fn lemma_vacuume_keys(s: VacuumeState, t: VacuumeState)
    requires
        s.key_spec() == t.key_spec(),
    ensures
        s == t,
{
    assert(s.dirt_distribution =~= t.dirt_distribution);
}

/// The vacuum world that starts with the cleaner on the left and both places
/// dirty, every action at a cost of one. Both searches may be run on it.
pub fn vacuume_world() -> (world: VacuumeWorld)
    ensures
        world.initial_state == (VacuumeState {
            vacuume_position: Position::Left,
            dirt_distribution: [Cleanliness::Dirty, Cleanliness::Dirty],
        }),
        world.keys_tell_apart(),
        world.costs_fit(),
        world.costs_nonnegative(),
{
    let world = VacuumeWorld {
        initial_state: VacuumeState {
            vacuume_position: Position::Left,
            dirt_distribution: [Cleanliness::Dirty, Cleanliness::Dirty],
        },
        actions: VacuumeActions,
        transition_model: VacuumeTransition,
        goal: VacuumeGoal,
        path_cost: UniformPathCost(PhantomData),
    };
    proof {
        assert forall|s: VacuumeState, t: VacuumeState|
            #[trigger] s.key_spec() == #[trigger] t.key_spec() implies s == t by {
            lemma_vacuume_keys(s, t);
        }
        world.lemma_keys_tell_apart(|s: VacuumeState| true);
        world.lemma_costs_fit(8, 1);
    }
    world
}

} // verus!
