use search_agents::problem::vacuume_world::{
    vacuume_actions, vacuume_goal_test, vacuume_transition, Cleanliness, Position, VacuumeAction, VacuumeState,
};
use search_agents::problem::vacuume_world;
use Cleanliness::{Clean, Dirty};
use Position::{Left, Right};
use search_agents::search::{breadth_first_search, uniform_cost_search};

fn state(position: Position, left: Cleanliness, right: Cleanliness) -> VacuumeState {
    VacuumeState { vacuume_position: position, dirt_distribution: [left, right] }
}

fn go(position: Position) -> VacuumeAction {
    VacuumeAction::Position { position }
}

fn replay(start: VacuumeState, route: &[VacuumeAction]) -> VacuumeState {
    let mut state = start;
    for action in route {
        state = vacuume_transition(&state, action);
    }
    state
}

#[test]
fn the_world_starts_on_the_left_with_both_places_dirty() {
    let world = vacuume_world();
    assert_eq!(world.initial_state, state(Position::Left, Cleanliness::Dirty, Cleanliness::Dirty));
    assert!(!vacuume_goal_test(&world.initial_state));
}

#[test]
fn cleaning_cleans_where_the_cleaner_stands() {
    assert_eq!(vacuume_transition(&state(Left, Dirty, Dirty), &VacuumeAction::Suck), state(Left, Clean, Dirty));
    assert_eq!(vacuume_transition(&state(Right, Dirty, Dirty), &VacuumeAction::Suck), state(Right, Dirty, Clean));
    assert_eq!(vacuume_transition(&state(Left, Clean, Dirty), &VacuumeAction::Suck), state(Left, Clean, Dirty));
    assert_eq!(vacuume_transition(&state(Right, Clean, Clean), &VacuumeAction::Suck), state(Right, Clean, Clean));
}

#[test]
fn moving_puts_the_cleaner_in_the_place_named() {
    assert_eq!(vacuume_transition(&state(Left, Dirty, Clean), &go(Right)), state(Right, Dirty, Clean));
    assert_eq!(vacuume_transition(&state(Right, Dirty, Clean), &go(Left)), state(Left, Dirty, Clean));
    assert_eq!(vacuume_transition(&state(Left, Dirty, Clean), &go(Left)), state(Left, Dirty, Clean));
    assert_eq!(vacuume_transition(&state(Right, Clean, Clean), &go(Right)), state(Right, Clean, Clean));
}

#[test]
fn the_goal_is_both_places_clean() {
    assert!(vacuume_goal_test(&state(Left, Clean, Clean)));
    assert!(vacuume_goal_test(&state(Right, Clean, Clean)));
    assert!(!vacuume_goal_test(&state(Left, Clean, Dirty)));
    assert!(!vacuume_goal_test(&state(Right, Dirty, Clean)));
    assert!(!vacuume_goal_test(&state(Right, Dirty, Dirty)));
}

#[test]
fn three_actions_are_open_in_every_state() {
    let open = vacuume_actions(&state(Position::Left, Cleanliness::Dirty, Cleanliness::Dirty));
    assert_eq!(open, vec![VacuumeAction::Suck, go(Position::Left), go(Position::Right)]);
    assert_eq!(vacuume_actions(&state(Position::Right, Cleanliness::Clean, Cleanliness::Clean)), open);
}

#[test]
fn breadth_first_cleans_both_places_in_three_actions() {
    let world = vacuume_world();
    let start = world.initial_state;
    let solution = breadth_first_search(world).expect("a solution exists");
    assert_eq!(solution.len(), 3);
    assert!(vacuume_goal_test(&replay(start, &solution)));
    assert_eq!(solution, vec![VacuumeAction::Suck, go(Position::Right), VacuumeAction::Suck]);
}

#[test]
fn uniform_cost_cleans_both_places_at_cost_three() {
    let world = vacuume_world();
    let start = world.initial_state;
    let solution = uniform_cost_search(world).expect("a solution exists");
    assert_eq!(solution.len(), 3);
    assert!(vacuume_goal_test(&replay(start, &solution)));
    assert_eq!(solution[0], VacuumeAction::Suck);
    assert_eq!(solution[1], go(Position::Right));
    assert_eq!(solution[2], VacuumeAction::Suck);
}

#[test]
fn a_world_that_starts_clean_needs_no_action() {
    let mut world = vacuume_world();
    world.initial_state = state(Position::Right, Cleanliness::Clean, Cleanliness::Clean);
    assert_eq!(uniform_cost_search(world), Some(vec![]));
    let mut world = vacuume_world();
    world.initial_state = state(Position::Right, Cleanliness::Clean, Cleanliness::Clean);
    let beyond = breadth_first_search(world).expect("the other clean state is one move away");
    assert_eq!(beyond, vec![go(Position::Left)]);
}

#[test]
fn a_world_half_clean_needs_two_actions() {
    let mut world = vacuume_world();
    world.initial_state = state(Position::Left, Cleanliness::Clean, Cleanliness::Dirty);
    assert_eq!(breadth_first_search(world), Some(vec![go(Position::Right), VacuumeAction::Suck]));
    let mut world = vacuume_world();
    world.initial_state = state(Position::Left, Cleanliness::Clean, Cleanliness::Dirty);
    assert_eq!(uniform_cost_search(world), Some(vec![go(Position::Right), VacuumeAction::Suck]));
}
