use std::collections::VecDeque;
use tube_sort::puzzle::{PuzzleState, Transfer, TransferError, TubeState};

const RED: u32 = 0xE0_10_10;
const BLUE: u32 = 0x10_10_E0;
const LIME: u32 = 0x10_E0_10;

fn state_of(tubes: &[&[u32]]) -> PuzzleState {
    PuzzleState(tubes.iter().map(|units| TubeState(VecDeque::from(units.to_vec()))).collect())
}

fn pour(from: usize, to: usize) -> Transfer {
    Transfer { from, to }
}

fn all_units(state: &PuzzleState) -> Vec<u32> {
    let mut units: Vec<u32> = state.0.iter().flat_map(|tube| tube.0.iter().copied()).collect();
    units.sort();
    units
}

#[test]
fn a_pour_onto_the_same_tube_is_refused() {
    let state = state_of(&[&[RED, BLUE], &[]]);
    assert_eq!(pour(0, 0).try_perform(&state), Err(TransferError::SameTube));
    assert_eq!(pour(1, 1).try_perform(&state), Err(TransferError::SameTube));
}

#[test]
fn a_pour_onto_a_full_tube_is_refused() {
    let state = state_of(&[&[RED], &[BLUE, RED, RED, RED]]);
    assert_eq!(pour(0, 1).try_perform(&state), Err(TransferError::DestinationFull));
}

#[test]
fn a_full_destination_is_named_before_an_empty_source() {
    let state = state_of(&[&[], &[BLUE, RED, BLUE, RED]]);
    assert_eq!(pour(0, 1).try_perform(&state), Err(TransferError::DestinationFull));
}

#[test]
fn a_pour_from_an_empty_tube_is_refused() {
    let state = state_of(&[&[], &[BLUE]]);
    assert_eq!(pour(0, 1).try_perform(&state), Err(TransferError::SourceEmpty));
    let empty = state_of(&[&[], &[]]);
    assert_eq!(pour(0, 1).try_perform(&empty), Err(TransferError::SourceEmpty));
}

#[test]
fn a_pour_from_a_finished_tube_is_refused() {
    let state = state_of(&[&[RED, RED, RED, RED], &[]]);
    assert_eq!(pour(0, 1).try_perform(&state), Err(TransferError::SourceAlreadySolved));
}

#[test]
fn a_pour_onto_another_color_is_refused() {
    let state = state_of(&[&[RED], &[BLUE]]);
    assert_eq!(pour(0, 1).try_perform(&state), Err(TransferError::ColorMismatchOrOverflow));
    assert_eq!(pour(1, 0).try_perform(&state), Err(TransferError::ColorMismatchOrOverflow));
}

#[test]
fn a_run_that_does_not_fit_is_refused() {
    let state = state_of(&[&[RED, BLUE, BLUE], &[RED, BLUE, BLUE]]);
    assert_eq!(pour(0, 1).try_perform(&state), Err(TransferError::ColorMismatchOrOverflow));
    let tight = state_of(&[&[BLUE, BLUE, BLUE], &[RED, BLUE]]);
    assert_eq!(pour(0, 1).try_perform(&tight), Err(TransferError::ColorMismatchOrOverflow));
}

#[test]
fn a_pour_onto_an_empty_tube_moves_the_whole_run() {
    let state = state_of(&[&[RED, BLUE, BLUE], &[]]);
    let next = pour(0, 1).try_perform(&state).expect("the destination is empty");
    assert_eq!(next, state_of(&[&[RED], &[BLUE, BLUE]]));
}

#[test]
fn a_pour_of_a_whole_unfinished_tube_empties_it() {
    let state = state_of(&[&[], &[LIME, LIME, LIME]]);
    let next = pour(1, 0).try_perform(&state).expect("the destination is empty");
    assert_eq!(next, state_of(&[&[LIME, LIME, LIME], &[]]));
}

#[test]
fn a_pour_onto_the_same_color_goes_on_top() {
    let state = state_of(&[&[RED, BLUE], &[RED, BLUE], &[LIME]]);
    let next = pour(0, 1).try_perform(&state).expect("same color, and room for one");
    assert_eq!(next, state_of(&[&[RED], &[RED, BLUE, BLUE], &[LIME]]));
}

#[test]
fn a_run_that_just_fits_fills_the_destination() {
    let state = state_of(&[&[RED, BLUE, BLUE], &[BLUE, BLUE]]);
    let next = pour(0, 1).try_perform(&state).expect("two and two make four");
    assert_eq!(next, state_of(&[&[RED], &[BLUE, BLUE, BLUE, BLUE]]));
    assert!(next.0[1].is_solved());
}

#[test]
fn a_pour_leaves_the_other_tubes_alone() {
    let state = state_of(&[&[LIME, RED], &[BLUE, LIME], &[RED, RED], &[]]);
    let next = pour(0, 2).try_perform(&state).expect("red onto red");
    assert_eq!(next, state_of(&[&[LIME], &[BLUE, LIME], &[RED, RED, RED], &[]]));
}

#[test]
fn a_pour_leaves_the_given_state_as_it_was() {
    let state = state_of(&[&[RED, BLUE, BLUE], &[]]);
    let before = state.clone();
    let _ = pour(0, 1).try_perform(&state);
    let _ = pour(1, 0).try_perform(&state);
    assert_eq!(state, before);
}

#[test]
fn a_pour_moves_exactly_the_top_run() {
    let state = state_of(&[&[LIME, RED, RED], &[BLUE, RED], &[BLUE, LIME, LIME], &[]]);
    for from in 0..4 {
        for to in 0..4 {
            let run = state.0[from].count_top_color();
            if let Ok(next) = pour(from, to).try_perform(&state) {
                assert!(run >= 1);
                assert_eq!(next.0[from].0.len(), state.0[from].0.len() - run);
                assert_eq!(next.0[to].0.len(), state.0[to].0.len() + run);
                assert_eq!(next.0[to].count_top_color(), state.0[to].count_top_color() + run);
                let moved = *state.0[from].0.back().expect("the source is not empty");
                assert_ne!(next.0[from].0.back(), Some(&moved));
            }
        }
    }
}

#[test]
fn a_pour_keeps_the_units() {
    let state = state_of(&[&[LIME, RED, RED], &[BLUE, RED], &[BLUE, LIME, LIME], &[]]);
    let mut made = 0;
    for from in 0..4 {
        for to in 0..4 {
            if let Ok(next) = pour(from, to).try_perform(&state) {
                assert_eq!(all_units(&next), all_units(&state));
                assert_eq!(next.0.len(), state.0.len());
                made += 1;
            }
        }
    }
    assert_eq!(made, 5);
}

#[test]
fn a_pour_keeps_every_tube_within_capacity() {
    let state =
        state_of(&[&[RED, BLUE, BLUE], &[BLUE, BLUE], &[RED, BLUE], &[LIME, LIME, LIME, BLUE]]);
    for from in 0..4 {
        for to in 0..4 {
            if let Ok(next) = pour(from, to).try_perform(&state) {
                assert!(next.0.iter().all(|tube| tube.0.len() <= 4));
            }
        }
    }
}

#[test]
fn the_moves_of_a_state_come_in_order() {
    let state = state_of(&[&[RED, BLUE], &[BLUE, RED], &[]]);
    let moves = state.possible_transfers();
    assert_eq!(moves.len(), 2);
    assert_eq!(moves[0].0, pour(0, 2));
    assert_eq!(moves[0].1, state_of(&[&[RED], &[BLUE, RED], &[BLUE]]));
    assert_eq!(moves[1].0, pour(1, 2));
    assert_eq!(moves[1].1, state_of(&[&[RED, BLUE], &[BLUE], &[RED]]));
}

#[test]
fn the_moves_of_a_state_are_those_that_can_be_made() {
    let state = state_of(&[&[LIME, RED, RED], &[BLUE, RED], &[BLUE, LIME, LIME], &[]]);
    let moves = state.possible_transfers();
    let mut expected = Vec::new();
    for from in 0..4 {
        for to in 0..4 {
            if from != to {
                if let Ok(next) = pour(from, to).try_perform(&state) {
                    expected.push((pour(from, to), next));
                }
            }
        }
    }
    assert_eq!(moves, expected);
    let listed: Vec<Transfer> = moves.iter().map(|(transfer, _)| *transfer).collect();
    assert_eq!(listed, vec![pour(0, 1), pour(0, 3), pour(1, 0), pour(1, 3), pour(2, 3)]);
}

#[test]
fn a_solved_state_has_no_moves() {
    let state = state_of(&[&[RED, RED, RED, RED], &[], &[BLUE, BLUE, BLUE, BLUE], &[]]);
    assert!(state.is_solved());
    assert!(state.possible_transfers().is_empty());
    for from in 0..4 {
        for to in 0..4 {
            let refused =
                pour(from, to).try_perform(&state).expect_err("no pour from a solved state");
            assert!(matches!(
                refused,
                TransferError::SameTube
                    | TransferError::DestinationFull
                    | TransferError::SourceEmpty
                    | TransferError::SourceAlreadySolved
            ));
        }
    }
}

#[test]
fn a_state_without_tubes_has_no_moves() {
    assert!(PuzzleState::default().possible_transfers().is_empty());
}

#[test]
fn the_default_transfer_names_the_first_tube_twice() {
    assert_eq!(Transfer::default(), pour(0, 0));
}
