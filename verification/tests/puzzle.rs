use search_agents::problem::square_less_one::{holds_side_four, square_less_one_from, GridAction, GridState};
use search_agents::problem::{square_less_one, SearchState};
use search_agents::search::{breadth_first_search, uniform_cost_search};
use std::collections::HashSet;

const ALL: [GridAction; 4] = [GridAction::Up, GridAction::Down, GridAction::Right, GridAction::Left];

fn grid(tiles: &[usize], side: usize) -> GridState {
    GridState::from_tiles(tiles.to_vec(), side).expect("the tiles make a grid")
}

/// The rule of the puzzle, written down once more: where the gap goes, with the
/// places counted as signed numbers.
fn slide(tiles: &[usize], side: usize, action: GridAction) -> Vec<usize> {
    let space = tiles.iter().position(|x| *x == 0).expect("a gap") as isize;
    let side = side as isize;
    let next = space
        + match action {
            GridAction::Up => -side,
            GridAction::Down => side,
            GridAction::Left => -1,
            GridAction::Right => 1,
        };
    let leaves = next < 0 || side * side <= next;
    let wraps = (action == GridAction::Left && next % side == side - 1)
        || (action == GridAction::Right && next % side == 0);
    let mut moved = tiles.to_vec();
    if !(leaves || wraps) {
        moved.swap(space as usize, next as usize);
    }
    moved
}

fn is_sorted(tiles: &[usize]) -> bool {
    tiles.windows(2).all(|pair| pair[0] <= pair[1])
}

fn is_solved(tiles: &[usize]) -> bool {
    is_sorted(&tiles[1..]) || is_sorted(&tiles[..tiles.len() - 1])
}

/// The least number of moves, one at least, that solve the grid.
fn depth_of(tiles: &[usize], side: usize, limit: usize) -> Option<usize> {
    let mut seen: HashSet<Vec<usize>> = HashSet::new();
    seen.insert(tiles.to_vec());
    let mut level = vec![tiles.to_vec()];
    for depth in 1..=limit {
        let mut next_level = Vec::new();
        for state in &level {
            for action in ALL {
                let next = slide(state, side, action);
                if seen.insert(next.clone()) {
                    if is_solved(&next) {
                        return Some(depth);
                    }
                    next_level.push(next);
                }
            }
        }
        level = next_level;
    }
    None
}

fn replay(start: &GridState, route: &[GridAction]) -> GridState {
    let mut state = start.clone();
    for action in route {
        state = state.transition(action);
    }
    state
}

#[test]
fn the_new_grid_holds_the_values_in_order() {
    assert_eq!(GridState::new(1).to_tiles(), vec![0]);
    assert_eq!(GridState::new(2).to_tiles(), vec![0, 1, 2, 3]);
    assert_eq!(GridState::new(3).to_tiles(), vec![0, 1, 2, 3, 4, 5, 6, 7, 8]);
    assert_eq!(GridState::new(0).to_tiles(), vec![]);
    assert_eq!(GridState::new(4).to_tiles(), (0..16).collect::<Vec<usize>>());
    assert_eq!(GridState::new(7).to_tiles(), (0..49).collect::<Vec<usize>>());
    assert!(GridState::new(3).is_solved());
    assert!(GridState::new(6).is_solved());
    assert!(GridState::new(0).is_solved());
    assert!(GridState::new(1).is_solved());
}

#[test]
fn a_grid_is_made_of_each_value_once() {
    assert_eq!(grid(&[3, 1, 2, 0], 2).to_tiles(), vec![3, 1, 2, 0]);
    assert_eq!(grid(&[0], 1).to_tiles(), vec![0]);
    assert!(GridState::from_tiles(vec![0, 1, 2, 3], 2).is_some());
    assert!(GridState::from_tiles(vec![0, 1, 2], 2).is_none());
    assert!(GridState::from_tiles(vec![0, 1, 2, 3, 4], 2).is_none());
    assert!(GridState::from_tiles(vec![0, 1, 2, 4], 2).is_none());
    assert!(GridState::from_tiles(vec![0, 1, 1, 3], 2).is_none());
    assert!(GridState::from_tiles(vec![1, 2, 3, 3], 2).is_none());
    assert!(GridState::from_tiles(vec![0, 1, 2, 3], 3).is_none());
    assert!(GridState::from_tiles(vec![0], 0).is_none());
    assert!(GridState::from_tiles((0..16).collect(), 5).is_none());
    assert!(GridState::from_tiles(vec![0, 1, 2, 3], usize::MAX).is_none());
    assert_eq!(GridState::from_tiles(vec![], 0).expect("a grid of no places").to_tiles(), vec![]);
    assert_eq!(GridState::from_tiles((0..16).collect(), 4), Some(GridState::new(4)));
    assert_eq!(GridState::from_tiles((0..25).rev().collect(), 5).expect("a grid").to_tiles().len(), 25);
}

#[test]
fn the_gap_moves_within_the_grid() {
    let start = grid(&[1, 2, 3, 4, 0, 5, 6, 7, 8], 3);
    assert_eq!(start.transition(&GridAction::Up).to_tiles(), vec![1, 0, 3, 4, 2, 5, 6, 7, 8]);
    assert_eq!(start.transition(&GridAction::Down).to_tiles(), vec![1, 2, 3, 4, 7, 5, 6, 0, 8]);
    assert_eq!(start.transition(&GridAction::Left).to_tiles(), vec![1, 2, 3, 0, 4, 5, 6, 7, 8]);
    assert_eq!(start.transition(&GridAction::Right).to_tiles(), vec![1, 2, 3, 4, 5, 0, 6, 7, 8]);
    assert_eq!(start.to_tiles(), vec![1, 2, 3, 4, 0, 5, 6, 7, 8]);
}

#[test]
fn the_gap_stays_where_it_cannot_move() {
    let corner = GridState::new(3);
    assert_eq!(corner.transition(&GridAction::Up), corner);
    assert_eq!(corner.transition(&GridAction::Left), corner);
    let end_of_row = grid(&[1, 2, 0, 3, 4, 5, 6, 7, 8], 3);
    assert_eq!(end_of_row.transition(&GridAction::Right), end_of_row);
    assert_eq!(end_of_row.transition(&GridAction::Up), end_of_row);
    let start_of_row = grid(&[1, 2, 3, 0, 4, 5, 6, 7, 8], 3);
    assert_eq!(start_of_row.transition(&GridAction::Left), start_of_row);
    let last = grid(&[1, 2, 3, 4, 5, 6, 7, 8, 0], 3);
    assert_eq!(last.transition(&GridAction::Right), last);
    assert_eq!(last.transition(&GridAction::Down), last);
    let single = GridState::new(1);
    for action in ALL {
        assert_eq!(single.transition(&action), single);
    }
}

#[test]
fn every_move_agrees_with_the_rule_written_once_more() {
    let mut seen = HashSet::new();
    let mut level = vec![vec![0usize, 1, 2, 3, 4, 5, 6, 7, 8]];
    for _ in 0..6 {
        let mut next_level = Vec::new();
        for tiles in &level {
            for action in ALL {
                let expected = slide(tiles, 3, action);
                assert_eq!(grid(tiles, 3).transition(&action).to_tiles(), expected);
                if seen.insert(expected.clone()) {
                    next_level.push(expected);
                }
            }
        }
        level = next_level;
    }
    for tiles in [[0usize, 1, 2, 3], [1, 0, 2, 3], [1, 2, 0, 3], [1, 2, 3, 0]] {
        for action in ALL {
            assert_eq!(grid(&tiles, 2).transition(&action).to_tiles(), slide(&tiles, 2, action));
        }
    }
}

#[test]
fn solved_is_rising_with_the_first_or_the_last_place_left_aside() {
    assert!(grid(&[0, 1, 2, 3, 4, 5, 6, 7, 8], 3).is_solved());
    assert!(grid(&[1, 2, 3, 4, 5, 6, 7, 8, 0], 3).is_solved());
    assert!(grid(&[5, 0, 1, 2, 3, 4, 6, 7, 8], 3).is_solved());
    assert!(grid(&[0, 1, 2, 3, 5, 6, 7, 8, 4], 3).is_solved());
    assert!(!grid(&[3, 1, 2, 0, 4, 5, 6, 7, 8], 3).is_solved());
    assert!(grid(&[1, 0, 2, 3, 4, 5, 6, 7, 8], 3).is_solved());
    assert!(!grid(&[1, 2, 0, 3, 4, 5, 6, 7, 8], 3).is_solved());
    assert!(!grid(&[3, 1, 2, 4, 7, 5, 6, 8, 0], 3).is_solved());
    assert!(grid(&[3, 0, 1, 2], 2).is_solved());
    assert!(!grid(&[3, 1, 0, 2], 2).is_solved());
    for tiles in [[3usize, 1, 2, 4, 7, 5, 6, 8, 0], [1, 2, 5, 3, 4, 0, 6, 7, 8], [8, 7, 6, 5, 4, 3, 2, 1, 0]] {
        assert_eq!(grid(&tiles, 3).is_solved(), is_solved(&tiles));
    }
}

#[test]
fn the_four_moves_are_open_everywhere() {
    let open = GridState::new(3).actions();
    assert_eq!(open, vec![GridAction::Up, GridAction::Down, GridAction::Right, GridAction::Left]);
    assert_eq!(grid(&[3, 1, 0, 2], 2).actions(), open);
}

#[test]
fn the_keys_tell_the_grids_apart() {
    let mut keys = HashSet::new();
    let mut seen = HashSet::new();
    let mut level = vec![GridState::new(3)];
    seen.insert(level[0].to_tiles());
    keys.insert(level[0].key());
    for _ in 0..8 {
        let mut next_level = Vec::new();
        for state in &level {
            for action in ALL {
                let next = state.transition(&action);
                assert_eq!(next.duplicate(), next);
                if seen.insert(next.to_tiles()) {
                    assert!(keys.insert(next.key()));
                    next_level.push(next);
                } else {
                    assert!(keys.contains(&next.key()));
                }
            }
        }
        level = next_level;
    }
    assert!(seen.len() > 100);
    assert_eq!(GridState::new(3).key(), 6053444);
    assert_eq!(grid(&[1, 0, 2, 3], 2).key(), 9 * (9 * (9 * 1 + 0) + 2) + 3);
}

#[test]
fn a_grid_takes_the_order_it_is_given() {
    let mut state = GridState::new(3);
    state.rearrange(&vec![3, 1, 2, 4, 7, 5, 6, 8, 0]);
    assert_eq!(state.to_tiles(), vec![3, 1, 2, 4, 7, 5, 6, 8, 0]);
    assert_eq!(state, grid(&[3, 1, 2, 4, 7, 5, 6, 8, 0], 3));
    state.rearrange(&vec![8, 7, 6, 5, 4, 3, 2, 1, 0]);
    assert_eq!(state.to_tiles(), vec![8, 7, 6, 5, 4, 3, 2, 1, 0]);
    let mut small = grid(&[3, 1, 0, 2], 2);
    small.rearrange(&vec![0, 1, 2, 3]);
    assert_eq!(small, GridState::new(2));
}

#[test]
fn shuffling_keeps_the_tiles() {
    let mut moved = false;
    for _ in 0..20 {
        let mut state = GridState::new(3);
        state.shuffle();
        let mut tiles = state.to_tiles();
        moved = moved || tiles != vec![0, 1, 2, 3, 4, 5, 6, 7, 8];
        tiles.sort();
        assert_eq!(tiles, vec![0, 1, 2, 3, 4, 5, 6, 7, 8]);
    }
    assert!(moved);
    let mut single = GridState::new(1);
    single.shuffle();
    assert_eq!(single.to_tiles(), vec![0]);
}

#[test]
fn a_grid_four_moves_from_solved_is_solved_in_four() {
    let tiles = [3, 1, 2, 4, 7, 5, 6, 8, 0];
    let start = grid(&tiles, 3);
    assert_eq!(
        replay(&GridState::new(3), &[GridAction::Down, GridAction::Right, GridAction::Down, GridAction::Right]),
        start
    );
    assert_eq!(depth_of(&tiles, 3, 12), Some(4));
    let by_count = breadth_first_search(square_less_one_from(start.clone())).expect("the grid can be solved");
    assert_eq!(by_count.len(), 4);
    assert!(replay(&start, &by_count).is_solved());
    let by_cost = uniform_cost_search(square_less_one_from(start.clone())).expect("the grid can be solved");
    assert!(by_cost.len() <= 4);
    assert_eq!(by_cost.len(), 4);
    assert!(replay(&start, &by_cost).is_solved());
}

#[test]
fn both_searches_solve_in_the_least_number_of_moves() {
    for tiles in [
        [1usize, 2, 5, 3, 4, 0, 6, 7, 8],
        [1, 2, 3, 0, 4, 6, 7, 5, 8],
        [0, 2, 3, 1, 4, 6, 7, 5, 8],
        [3, 1, 2, 6, 4, 5, 7, 8, 0],
        [1, 0, 2, 4, 5, 3, 7, 8, 6],
    ] {
        let start = grid(&tiles, 3);
        let least = depth_of(&tiles, 3, 12).expect("the grid can be solved");
        let by_count = breadth_first_search(square_less_one_from(start.clone())).expect("the grid can be solved");
        assert_eq!(by_count.len(), least);
        assert!(replay(&start, &by_count).is_solved());
        let by_cost = uniform_cost_search(square_less_one_from(start.clone())).expect("the grid can be solved");
        assert_eq!(by_cost.len(), least);
        assert!(replay(&start, &by_cost).is_solved());
    }
}

#[test]
fn a_solved_start_is_a_solution_for_the_search_by_cost() {
    let found = uniform_cost_search(square_less_one_from(GridState::new(3)));
    assert_eq!(found, Some(vec![]));
    let beyond = breadth_first_search(square_less_one_from(GridState::new(3))).expect("a solved grid is near");
    assert_eq!(beyond.len(), 1);
    assert!(replay(&GridState::new(3), &beyond).is_solved());
}

#[test]
fn a_shuffled_puzzle_is_solved_or_cannot_be() {
    for _ in 0..10 {
        let puzzle = square_less_one(2);
        let start = puzzle.initial_state.clone();
        let mut tiles = start.to_tiles();
        let least = if is_solved(&tiles) { Some(0) } else { depth_of(&tiles, 2, 30) };
        let found = uniform_cost_search(puzzle);
        assert_eq!(found.as_ref().map(|route| route.len()), least);
        if let Some(route) = found {
            assert!(replay(&start, &route).is_solved());
        }
        tiles.sort();
        assert_eq!(tiles, vec![0, 1, 2, 3]);
    }
    let puzzle = square_less_one(3);
    let mut tiles = puzzle.initial_state.to_tiles();
    tiles.sort();
    assert_eq!(tiles, vec![0, 1, 2, 3, 4, 5, 6, 7, 8]);
    let single = square_less_one(1);
    assert_eq!(uniform_cost_search(single), Some(vec![]));
    for side in [4usize, 5, 6] {
        let puzzle = square_less_one(side);
        let mut tiles = puzzle.initial_state.to_tiles();
        tiles.sort();
        assert_eq!(tiles, (0..side * side).collect::<Vec<usize>>());
    }
}

#[test]
fn a_grid_of_a_greater_side_moves_by_the_same_rule() {
    for side in [4usize, 5] {
        let mut tiles: Vec<usize> = (0..side * side).collect();
        for round in 0..40 {
            let action = ALL[(round * 7 + round / 3) % 4];
            let expected = slide(&tiles, side, action);
            let next = grid(&tiles, side).transition(&action);
            assert_eq!(next.to_tiles(), expected);
            assert_eq!(next.is_solved(), is_solved(&expected));
            tiles = expected;
        }
        assert_ne!(tiles, (0..side * side).collect::<Vec<usize>>());
    }
}

#[test]
fn a_word_of_64_bits_holds_the_costs_of_side_four() {
    assert_eq!(holds_side_four(), usize::BITS >= 64);
    assert_eq!(holds_side_four(), (isize::MAX as i128) >= (1i128 << 60));
}

#[test]
fn a_grid_of_side_four_is_solved_from_near() {
    let start = replay(&GridState::new(4), &[GridAction::Down, GridAction::Right, GridAction::Down]);
    assert_eq!(start.to_tiles(), vec![4, 1, 2, 3, 5, 9, 6, 7, 8, 0, 10, 11, 12, 13, 14, 15]);
    let least = depth_of(&start.to_tiles(), 4, 6).expect("the grid can be solved");
    let by_count = breadth_first_search(square_less_one_from(start.clone())).expect("the grid can be solved");
    assert_eq!(by_count.len(), least);
    assert!(replay(&start, &by_count).is_solved());
    let by_cost = uniform_cost_search(square_less_one_from(start.clone())).expect("the grid can be solved");
    assert_eq!(by_cost.len(), least);
    assert!(replay(&start, &by_cost).is_solved());
}

#[test]
fn the_keys_tell_the_grids_of_side_four_apart() {
    let mut keys = HashSet::new();
    let mut seen = HashSet::new();
    let mut level = vec![GridState::new(4)];
    seen.insert(level[0].to_tiles());
    keys.insert(level[0].key());
    for _ in 0..7 {
        let mut next_level = Vec::new();
        for state in &level {
            for action in ALL {
                let next = state.transition(&action);
                if seen.insert(next.to_tiles()) {
                    assert!(keys.insert(next.key()));
                    next_level.push(next);
                }
            }
        }
        level = next_level;
    }
    assert!(seen.len() > 100);
    assert_eq!(GridState::new(4).key(), 0x0123_4567_89ab_cdef);
    assert_eq!(grid(&[15, 14, 13, 12, 11, 10, 9, 8, 7, 6, 5, 4, 3, 2, 1, 0], 4).key(), 0xfedc_ba98_7654_3210);
}
