use minesweeper::board::BoardError;
use minesweeper::board::Cell;
use minesweeper::engine::GameEngine;
use minesweeper::engine::GameOutcome;

fn cell(e: &GameEngine, r: usize, c: usize) -> Cell {
    e.cell_at(r, c).expect("cell in bounds")
}

fn snapshot(e: &GameEngine) -> Vec<(bool, bool, bool, u8)> {
    let mut v = Vec::new();
    for r in 0..e.height() {
        for c in 0..e.width() {
            let cl = cell(e, r, c);
            v.push((cl.is_mined, cl.is_open, cl.is_flagged, cl.adjacent_mine_count));
        }
    }
    v
}

fn mined_count(e: &GameEngine) -> usize {
    snapshot(e).iter().filter(|t| t.0).count()
}

/// Recompute one cell's adjacency count directly from the snapshot.
fn recount(e: &GameEngine, r: usize, c: usize) -> u8 {
    let mut n: u8 = 0;
    for dr in 0..3usize {
        for dc in 0..3usize {
            if dr == 1 && dc == 1 {
                continue;
            }
            let nr = (r + dr).wrapping_sub(1);
            let nc = (c + dc).wrapping_sub(1);
            if nr < e.height() && nc < e.width() {
                if cell(e, nr, nc).is_mined {
                    n += 1;
                }
            }
        }
    }
    n
}

#[test]
fn generate_places_exact_mine_count() {
    let e = GameEngine::new(5, 5, 3).expect("valid config");
    assert_eq!(e.outcome(), GameOutcome::Playing);
    assert_eq!(mined_count(&e), 3);
    for r in 0..5 {
        for c in 0..5 {
            let cl = cell(&e, r, c);
            assert!(!cl.is_open);
            assert!(!cl.is_flagged);
            assert_eq!(cl.adjacent_mine_count, recount(&e, r, c));
        }
    }
}

#[test]
fn generate_original_configuration() {
    let e = GameEngine::new(10, 10, 13).expect("valid config");
    assert_eq!(e.width(), 10);
    assert_eq!(e.height(), 10);
    assert_eq!(mined_count(&e), 13);
    for r in 0..10 {
        for c in 0..10 {
            assert_eq!(cell(&e, r, c).adjacent_mine_count, recount(&e, r, c));
        }
    }
}

#[test]
fn generate_rejects_bad_configurations() {
    assert_eq!(GameEngine::new(0, 5, 0).err(), Some(BoardError::InvalidBoardConfiguration));
    assert_eq!(GameEngine::new(5, 0, 1).err(), Some(BoardError::InvalidBoardConfiguration));
    assert_eq!(GameEngine::new(3, 3, 9).err(), Some(BoardError::InvalidBoardConfiguration));
    let dense = GameEngine::new(3, 3, 8).expect("densest valid configuration");
    assert_eq!(mined_count(&dense), 8);
    assert!(GameEngine::new(1, 1, 0).is_ok());
}

#[test]
fn with_mines_rejects_bad_lists() {
    let dup = vec![(1usize, 1usize), (1usize, 1usize)];
    assert_eq!(GameEngine::with_mines(3, 3, &dup).err(), Some(BoardError::InvalidBoardConfiguration));
    let oob = vec![(3usize, 0usize)];
    assert_eq!(GameEngine::with_mines(3, 3, &oob).err(), Some(BoardError::InvalidBoardConfiguration));
    let full = vec![(0usize, 0usize), (0usize, 1usize), (1usize, 0usize), (1usize, 1usize)];
    assert_eq!(GameEngine::with_mines(2, 2, &full).err(), Some(BoardError::InvalidBoardConfiguration));
}

#[test]
fn scenario_one_cell_no_mines_wins_at_once() {
    let mut e = GameEngine::with_mines(1, 1, &vec![]).expect("valid");
    assert_eq!(e.outcome(), GameOutcome::Playing);
    e.open(0, 0);
    assert_eq!(e.outcome(), GameOutcome::Won);
    assert!(cell(&e, 0, 0).is_open);
}

#[test]
fn scenario_center_mine_corner_open_does_not_cascade() {
    let mut e = GameEngine::with_mines(3, 3, &vec![(1, 1)]).expect("valid");
    // Hand-derived adjacency grid: every cell around the single central
    // mine counts exactly 1; the mined cell itself counts 0.
    for r in 0..3 {
        for c in 0..3 {
            let expected = if r == 1 && c == 1 { 0 } else { 1 };
            assert_eq!(cell(&e, r, c).adjacent_mine_count, expected);
        }
    }
    e.open(0, 0);
    assert_eq!(e.outcome(), GameOutcome::Playing);
    for r in 0..3 {
        for c in 0..3 {
            assert_eq!(cell(&e, r, c).is_open, r == 0 && c == 0);
        }
    }
}

#[test]
fn open_on_mine_reveals_all_mines_and_loses() {
    let mut e = GameEngine::with_mines(3, 3, &vec![(1, 1)]).expect("valid");
    e.open(0, 2);
    e.open(1, 1);
    assert_eq!(e.outcome(), GameOutcome::Lost);
    for r in 0..3 {
        for c in 0..3 {
            let cl = cell(&e, r, c);
            if cl.is_mined {
                assert!(cl.is_open);
            } else {
                // Non-mined cells keep their open state from before the loss.
                assert_eq!(cl.is_open, r == 0 && c == 2);
            }
        }
    }
    // Terminal: further actions are ignored.
    let before = snapshot(&e);
    e.open(2, 2);
    e.toggle_flag(2, 2);
    e.chord(0, 2);
    assert_eq!(snapshot(&e), before);
    assert_eq!(e.outcome(), GameOutcome::Lost);
}

#[test]
fn flood_fill_opens_zero_region_up_to_numbered_ring() {
    let mut e = GameEngine::with_mines(3, 3, &vec![(2, 2)]).expect("valid");
    e.open(0, 0);
    // The zero region plus its numbered ring is the whole board minus the
    // mine, so this single open also wins the round.
    for r in 0..3 {
        for c in 0..3 {
            let cl = cell(&e, r, c);
            assert_eq!(cl.is_open, !(r == 2 && c == 2));
            assert!(!(cl.is_mined && cl.is_open));
        }
    }
    assert_eq!(e.outcome(), GameOutcome::Won);
}

#[test]
fn scenario_opening_last_closed_cell_wins() {
    let mut e = GameEngine::with_mines(3, 1, &vec![(0, 2)]).expect("valid");
    e.open(0, 1);
    assert_eq!(e.outcome(), GameOutcome::Playing);
    e.open(0, 0);
    assert_eq!(e.outcome(), GameOutcome::Won);
    assert!(cell(&e, 0, 0).is_open && cell(&e, 0, 1).is_open);
    assert!(!cell(&e, 0, 2).is_open);
}

#[test]
fn scenario_open_on_flagged_cell_is_noop() {
    let mut e = GameEngine::with_mines(2, 2, &vec![(1, 1)]).expect("valid");
    e.toggle_flag(0, 0);
    let before = snapshot(&e);
    e.open(0, 0);
    assert_eq!(snapshot(&e), before);
    let cl = cell(&e, 0, 0);
    assert!(!cl.is_open && cl.is_flagged);
    assert_eq!(e.outcome(), GameOutcome::Playing);
}

#[test]
fn toggle_flag_twice_restores_cell() {
    let mut e = GameEngine::with_mines(2, 2, &vec![(1, 1)]).expect("valid");
    let before = snapshot(&e);
    e.toggle_flag(0, 1);
    assert!(cell(&e, 0, 1).is_flagged);
    e.toggle_flag(0, 1);
    assert_eq!(snapshot(&e), before);
}

#[test]
fn open_on_open_cell_is_noop() {
    let mut e = GameEngine::with_mines(3, 3, &vec![(1, 1)]).expect("valid");
    e.open(0, 0);
    let before = snapshot(&e);
    e.open(0, 0);
    assert_eq!(snapshot(&e), before);
    assert_eq!(e.outcome(), GameOutcome::Playing);
}

#[test]
fn toggle_flag_ignored_on_open_cell() {
    let mut e = GameEngine::with_mines(3, 3, &vec![(1, 1)]).expect("valid");
    e.open(0, 0);
    let before = snapshot(&e);
    e.toggle_flag(0, 0);
    assert_eq!(snapshot(&e), before);
}

#[test]
fn chord_is_noop_when_flag_count_differs() {
    let mut e = GameEngine::with_mines(3, 3, &vec![(1, 1)]).expect("valid");
    e.open(0, 0);
    let before = snapshot(&e);
    e.chord(0, 0);
    assert_eq!(snapshot(&e), before);
    assert_eq!(e.outcome(), GameOutcome::Playing);
}

#[test]
fn chord_opens_both_unflagged_neighbors_in_one_call() {
    let mut e = GameEngine::with_mines(3, 3, &vec![(0, 0), (0, 2)]).expect("valid");
    e.open(0, 1);
    assert_eq!(cell(&e, 0, 1).adjacent_mine_count, 2);
    e.open(1, 1);
    e.toggle_flag(0, 0);
    e.toggle_flag(0, 2);
    assert!(!cell(&e, 1, 0).is_open && !cell(&e, 1, 2).is_open);
    e.chord(0, 1);
    assert!(cell(&e, 1, 0).is_open && cell(&e, 1, 2).is_open);
    assert_eq!(e.outcome(), GameOutcome::Playing);
    assert!(!cell(&e, 0, 0).is_open && !cell(&e, 0, 2).is_open);
}

#[test]
fn chord_on_wrongly_flagged_neighbor_hits_mine() {
    let mut e = GameEngine::with_mines(3, 3, &vec![(1, 1)]).expect("valid");
    e.open(0, 0);
    e.toggle_flag(0, 1);
    e.chord(0, 0);
    assert_eq!(e.outcome(), GameOutcome::Lost);
    assert!(cell(&e, 1, 1).is_open);
    let fl = cell(&e, 0, 1);
    assert!(fl.is_flagged && !fl.is_open);
}

#[test]
fn restart_regenerates_fresh_board() {
    let mut e = GameEngine::with_mines(2, 2, &vec![(0, 1)]).expect("valid");
    e.open(0, 1);
    assert_eq!(e.outcome(), GameOutcome::Lost);
    e.restart();
    assert_eq!(e.outcome(), GameOutcome::Playing);
    assert_eq!(mined_count(&e), 1);
    for r in 0..2 {
        for c in 0..2 {
            let cl = cell(&e, r, c);
            assert!(!cl.is_open && !cl.is_flagged);
            assert_eq!(cl.adjacent_mine_count, recount(&e, r, c));
        }
    }
}

#[test]
fn out_of_bounds_actions_are_ignored() {
    let mut e = GameEngine::with_mines(2, 2, &vec![(1, 1)]).expect("valid");
    let before = snapshot(&e);
    e.open(2, 0);
    e.open(0, 2);
    e.toggle_flag(5, 5);
    e.chord(9, 9);
    assert_eq!(snapshot(&e), before);
    assert_eq!(e.outcome(), GameOutcome::Playing);
    assert_eq!(e.cell_at(2, 0), None);
}

#[test]
fn chord_ignored_on_closed_or_zero_count_target() {
    let mut e = GameEngine::with_mines(3, 3, &vec![(2, 2)]).expect("valid");
    let before = snapshot(&e);
    // Target closed: ignored.
    e.chord(0, 1);
    assert_eq!(snapshot(&e), before);
    // Target open with count zero: ignored.
    let mut e2 = GameEngine::with_mines(3, 3, &vec![(1, 1)]).expect("valid");
    e2.open(0, 0);
    e2.open(0, 1);
    let before2 = snapshot(&e2);
    e2.chord(0, 0);
    // (0, 0) has count 1 here, so use a true zero-count board instead.
    assert_eq!(snapshot(&e2), before2);
    let mut e3 = GameEngine::with_mines(3, 1, &vec![(0, 2)]).expect("valid");
    e3.open(0, 0);
    let before3 = snapshot(&e3);
    e3.chord(0, 0);
    assert_eq!(snapshot(&e3), before3);
}

#[test]
fn losing_keeps_flags_and_closed_non_mines() {
    let mut e = GameEngine::with_mines(2, 2, &vec![(1, 1)]).expect("valid");
    e.toggle_flag(0, 0);
    e.open(1, 1);
    assert_eq!(e.outcome(), GameOutcome::Lost);
    let flagged = cell(&e, 0, 0);
    assert!(flagged.is_flagged && !flagged.is_open);
    assert!(cell(&e, 1, 1).is_open);
    assert!(!cell(&e, 0, 1).is_open && !cell(&e, 1, 0).is_open);
}
