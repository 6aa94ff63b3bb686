use std::collections::VecDeque;
use tube_sort::puzzle::{PuzzleState, Transfer, TubeState};

const RED: u32 = 0xE0_10_10;
const BLUE: u32 = 0x10_10_E0;
const LIME: u32 = 0x10_E0_10;

fn puzzle_of(tubes: &[&[u32]]) -> PuzzleState {
    PuzzleState(tubes.iter().map(|units| TubeState(VecDeque::from(units.to_vec()))).collect())
}

fn sorted_units(state: &PuzzleState) -> Vec<u32> {
    let mut units: Vec<u32> = state.0.iter().flat_map(|tube| tube.0.iter().copied()).collect();
    units.sort();
    units
}

/// Makes the pours of `path` one after the other; every one has to succeed.
fn replayed(start: &PuzzleState, path: &[Transfer]) -> PuzzleState {
    let mut state = start.clone();
    for transfer in path {
        state = transfer.try_perform(&state).expect("every pour of a solution can be made");
    }
    state
}

/// The first path of exactly `depth` pours, in the order in which pours are
/// tried, that leads from `state` to a solved state.
fn first_path_of_length(state: &PuzzleState, depth: usize, path: &mut Vec<Transfer>) -> bool {
    if depth == 0 {
        return state.is_solved();
    }
    for from in 0..state.0.len() {
        for to in 0..state.0.len() {
            let transfer = Transfer { from, to };
            if let Ok(next) = transfer.try_perform(state) {
                path.push(transfer);
                if first_path_of_length(&next, depth - 1, path) {
                    return true;
                }
                path.pop();
            }
        }
    }
    false
}

/// The first solution found by trying every path, shortest first.
fn first_solution_by_enumeration(start: &PuzzleState, longest: usize) -> Option<Vec<Transfer>> {
    for depth in 0..=longest {
        let mut path = Vec::new();
        if first_path_of_length(start, depth, &mut path) {
            return Some(path);
        }
    }
    None
}

#[test]
fn a_solved_puzzle_has_the_empty_solution() {
    let start = puzzle_of(&[&[RED, RED, RED, RED], &[]]);
    let node = start.solve().expect("a solved puzzle has a solution");
    assert!(node.transfers.is_empty());
    assert_eq!(node.state, start);
}

#[test]
fn a_full_tube_beside_an_empty_one_is_solved() {
    let start = puzzle_of(&[&[LIME, LIME, LIME, LIME], &[]]);
    assert!(start.0[0].is_solved());
    assert!(start.0[1].is_solved());
    assert!(start.is_solved());
    let node = start.solve().expect("nothing is left to do");
    assert_eq!(node.transfers, Vec::<Transfer>::new());
}

#[test]
fn a_puzzle_without_tubes_is_solved() {
    let node = PuzzleState::default().solve().expect("nothing is left to do");
    assert!(node.transfers.is_empty());
}

#[test]
fn two_units_of_a_color_never_fill_a_tube() {
    let start = puzzle_of(&[&[RED, BLUE], &[BLUE, RED], &[]]);
    assert!(start.solve().is_none());
    assert_eq!(first_solution_by_enumeration(&start, 6), None);
}

#[test]
fn two_split_colors_are_sorted_in_three_pours() {
    let start = puzzle_of(&[&[RED, RED, BLUE, BLUE], &[BLUE, BLUE, RED, RED], &[]]);
    let node = start.solve().expect("the puzzle can be solved");
    assert_eq!(
        node.transfers,
        vec![
            Transfer { from: 0, to: 2 },
            Transfer { from: 1, to: 0 },
            Transfer { from: 1, to: 2 },
        ]
    );
    assert_eq!(node.state, puzzle_of(&[&[RED, RED, RED, RED], &[], &[BLUE, BLUE, BLUE, BLUE]]));
}

#[test]
fn the_solution_replays_to_a_solved_state() {
    let start = puzzle_of(&[&[RED, RED, BLUE, BLUE], &[BLUE, BLUE, RED, RED], &[]]);
    let node = start.solve().expect("the puzzle can be solved");
    let end = replayed(&start, &node.transfers);
    assert!(end.is_solved());
    assert_eq!(end, node.state);
}

#[test]
fn the_solution_is_the_first_of_the_shortest() {
    let start = puzzle_of(&[&[RED, RED, BLUE, BLUE], &[BLUE, BLUE, RED, RED], &[]]);
    let node = start.solve().expect("the puzzle can be solved");
    assert_eq!(first_solution_by_enumeration(&start, 3), Some(node.transfers));
}

#[test]
fn no_shorter_path_solves_a_three_color_puzzle() {
    let start = puzzle_of(&[
        &[RED, BLUE, LIME, RED],
        &[BLUE, LIME, RED, BLUE],
        &[LIME, RED, BLUE, LIME],
        &[],
        &[],
    ]);
    let node = start.solve().expect("two spare tubes are enough");
    let end = replayed(&start, &node.transfers);
    assert!(end.is_solved());
    assert_eq!(end, node.state);
    assert_eq!(sorted_units(&end), sorted_units(&start));
    let by_enumeration = first_solution_by_enumeration(&start, node.transfers.len())
        .expect("the solution itself is among the paths tried");
    assert_eq!(by_enumeration, node.transfers);
}

#[test]
fn two_searches_give_the_same_path() {
    let start = puzzle_of(&[
        &[RED, BLUE, LIME, RED],
        &[BLUE, LIME, RED, BLUE],
        &[LIME, RED, BLUE, LIME],
        &[],
        &[],
    ]);
    let first = start.solve().expect("solvable");
    let second = start.clone().solve().expect("solvable");
    assert_eq!(first.transfers, second.transfers);
    assert_eq!(first.state, second.state);
}

#[test]
fn the_states_on_the_way_keep_units_and_capacity() {
    let start = puzzle_of(&[
        &[RED, BLUE, LIME, RED],
        &[BLUE, LIME, RED, BLUE],
        &[LIME, RED, BLUE, LIME],
        &[],
        &[],
    ]);
    let node = start.solve().expect("solvable");
    let mut state = start.clone();
    for transfer in &node.transfers {
        state = transfer.try_perform(&state).expect("every pour of a solution can be made");
        assert_eq!(state.0.len(), 5);
        assert_eq!(sorted_units(&state), sorted_units(&start));
        assert!(state.0.iter().all(|tube| tube.0.len() <= 4));
    }
}

#[test]
fn full_tubes_without_a_spare_cannot_be_sorted() {
    let start = puzzle_of(&[&[RED, BLUE, RED, BLUE], &[BLUE, RED, BLUE, RED]]);
    assert!(start.possible_transfers().is_empty());
    assert!(start.solve().is_none());
}

#[test]
fn three_split_colors_without_room_cannot_be_sorted() {
    let start = puzzle_of(&[
        &[RED, BLUE, LIME, RED],
        &[BLUE, LIME, RED, BLUE],
        &[LIME, RED, BLUE, LIME],
    ]);
    assert!(start.solve().is_none());
}

#[test]
fn interleaved_colors_are_sorted_through_the_spare_tube() {
    let start = puzzle_of(&[&[RED, BLUE, RED, BLUE], &[BLUE, RED, BLUE, RED], &[]]);
    let by_hand = [
        Transfer { from: 0, to: 2 },
        Transfer { from: 1, to: 0 },
        Transfer { from: 1, to: 2 },
        Transfer { from: 0, to: 1 },
        Transfer { from: 0, to: 2 },
        Transfer { from: 1, to: 0 },
        Transfer { from: 1, to: 2 },
    ];
    assert!(replayed(&start, &by_hand).is_solved());
    let node = start.solve().expect("the way found by hand is one solution");
    assert!(node.transfers.len() <= by_hand.len());
    assert!(replayed(&start, &node.transfers).is_solved());
    assert_eq!(first_solution_by_enumeration(&start, by_hand.len()), Some(node.transfers));
}

#[test]
fn the_search_leaves_the_puzzle_as_it_was() {
    let start = puzzle_of(&[&[RED, RED, BLUE, BLUE], &[BLUE, BLUE, RED, RED], &[]]);
    let before = start.clone();
    let _ = start.solve();
    assert_eq!(start, before);
}
