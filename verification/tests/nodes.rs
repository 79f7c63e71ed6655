use search_agents::problem::square_less_one::{GridAction, GridState};
use search_agents::problem::vacuume_world::{Cleanliness, Position, VacuumeAction, VacuumeState};
use search_agents::problem::{vacuume_world, SearchState};
use search_agents::search::{generate, EqOnNodeState, Node};
use std::rc::Rc;

fn right() -> VacuumeAction {
    VacuumeAction::Position { position: Position::Right }
}

#[test]
fn the_root_has_no_way_behind_it() {
    let world = vacuume_world();
    let root: Node<VacuumeState, VacuumeAction> = Node::from(world.initial_state);
    assert!(root.ctx.is_none());
    assert_eq!(root.state, world.initial_state);
    assert_eq!(root.solution(), vec![]);
    assert_eq!(root.path_cost(), 0);
}

#[test]
fn a_child_stands_where_the_action_leads() {
    let world = vacuume_world();
    let root = Rc::new(Node::from(world.initial_state));
    let child = generate(&world, &root, VacuumeAction::Suck);
    assert_eq!(child.state.dirt_distribution, [Cleanliness::Clean, Cleanliness::Dirty]);
    assert_eq!(child.state.vacuume_position, Position::Left);
    assert_eq!(child.path_cost(), 1);
    let ctx = child.ctx.as_ref().expect("a child has a parent");
    assert_eq!(ctx.action, VacuumeAction::Suck);
    assert_eq!(ctx.path_cost, 1);
    assert!(Rc::ptr_eq(&ctx.parent, &root));
    assert_eq!(root.state, world.initial_state);
    assert!(root.ctx.is_none());
}

#[test]
fn the_solution_lists_the_actions_in_the_order_in_which_they_are_taken() {
    let world = vacuume_world();
    let root = Rc::new(Node::from(world.initial_state));
    let first = Rc::new(generate(&world, &root, VacuumeAction::Suck));
    let second = Rc::new(generate(&world, &first, right()));
    let third = generate(&world, &second, VacuumeAction::Suck);
    assert_eq!(third.solution(), vec![VacuumeAction::Suck, right(), VacuumeAction::Suck]);
    assert_eq!(second.solution(), vec![VacuumeAction::Suck, right()]);
    assert_eq!(first.solution(), vec![VacuumeAction::Suck]);
    assert_eq!(third.path_cost(), 3);
    assert_eq!(second.path_cost(), 2);
}

#[test]
fn children_share_their_parent() {
    let world = vacuume_world();
    let root = Rc::new(Node::from(world.initial_state));
    let one = generate(&world, &root, VacuumeAction::Suck);
    let other = generate(&world, &root, right());
    assert_eq!(Rc::strong_count(&root), 3);
    assert!(Rc::ptr_eq(&one.ctx.as_ref().unwrap().parent, &other.ctx.as_ref().unwrap().parent));
}

#[test]
fn nodes_are_the_same_place_when_their_states_are() {
    let world = vacuume_world();
    let root = Rc::new(Node::from(world.initial_state));
    let moved = Rc::new(generate(&world, &root, right()));
    let back = generate(&world, &moved, VacuumeAction::Position { position: Position::Left });
    assert!(back == *root);
    assert_eq!(back.path_cost(), 2);
    assert!(*moved != *root);
}

#[test]
fn an_entry_carries_the_key_of_its_state() {
    let world = vacuume_world();
    let root = Rc::new(Node::from(world.initial_state));
    let moved = Rc::new(generate(&world, &root, right()));
    let back = Rc::new(generate(&world, &moved, VacuumeAction::Position { position: Position::Left }));
    let at_root = EqOnNodeState::from(root.clone());
    let at_moved = EqOnNodeState::from(moved);
    let at_back = EqOnNodeState::from(back);
    assert_eq!(at_root.key(), world.initial_state.key());
    assert_eq!(at_root.key(), 0);
    assert_eq!(at_moved.key(), 4);
    assert!(at_root == at_back);
    assert!(at_root != at_moved);
    assert!(Rc::ptr_eq(&at_root.node(), &root));
}

#[test]
fn the_keys_of_the_vacuum_world_tell_its_states_apart() {
    let mut keys = Vec::new();
    for position in [Position::Left, Position::Right] {
        for left in [Cleanliness::Dirty, Cleanliness::Clean] {
            for right in [Cleanliness::Dirty, Cleanliness::Clean] {
                let state = VacuumeState { vacuume_position: position, dirt_distribution: [left, right] };
                assert_eq!(state.duplicate(), state);
                keys.push(state.key());
            }
        }
    }
    assert_eq!(keys, vec![0, 1, 2, 3, 4, 5, 6, 7]);
}

#[test]
fn nodes_in_states_of_one_key_are_the_same_place_only_if_the_states_are() {
    let start = GridState::new(5);
    let moved = start.transition(&GridAction::Down);
    assert_eq!(start.key(), moved.key());
    assert_ne!(start.to_tiles(), moved.to_tiles());
    let at_start: Node<GridState, GridAction> = Node::from(start.clone());
    let at_moved: Node<GridState, GridAction> = Node::from(moved.clone());
    let again: Node<GridState, GridAction> = Node::from(GridState::new(5));
    assert!(at_start != at_moved);
    assert!(at_start == again);
    let at_start = EqOnNodeState::from(Rc::new(at_start));
    let at_moved = EqOnNodeState::from(Rc::new(at_moved));
    let again = EqOnNodeState::from(Rc::new(again));
    assert_eq!(at_start.key(), at_moved.key());
    assert!(at_start != at_moved);
    assert!(at_start == again);
}

#[test]
fn states_are_the_same_when_all_they_hold_is() {
    assert!(7u64.same(&7));
    assert!(!7u64.same(&8));
    let world = vacuume_world();
    let start = world.initial_state;
    assert!(start.same(&start.duplicate()));
    for other in [
        VacuumeState { vacuume_position: Position::Right, dirt_distribution: [Cleanliness::Dirty, Cleanliness::Dirty] },
        VacuumeState { vacuume_position: Position::Left, dirt_distribution: [Cleanliness::Clean, Cleanliness::Dirty] },
        VacuumeState { vacuume_position: Position::Left, dirt_distribution: [Cleanliness::Dirty, Cleanliness::Clean] },
    ] {
        assert!(!start.same(&other));
        assert!(other.same(&other));
    }
    let grid = GridState::new(3);
    assert!(grid.same(&GridState::new(3)));
    assert!(grid.same(&grid.transition(&GridAction::Up)));
    assert!(!grid.same(&grid.transition(&GridAction::Right)));
    assert!(!grid.same(&GridState::new(2)));
    assert!(!GridState::new(0).same(&GridState::new(1)));
    assert!(GridState::new(6).same(&GridState::new(6).duplicate()));
}
