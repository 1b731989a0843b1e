use sudoku_engine::SoloState;
use sudoku_engine::State;

/// One full snapshot of a cell's user-visible and derived state.
type CellSnap = (Option<u8>, Vec<bool>, Vec<bool>, SoloState<u8>, bool);

fn snapshot(s: &State) -> Vec<CellSnap> {
    let mut out = Vec::new();
    for y in 0..9 {
        for x in 0..9 {
            let c = s.cell(y, x);
            let mut poss = Vec::new();
            let mut removed = Vec::new();
            for d in 1..=9u8 {
                poss.push(c.poss_get(d));
                removed.push(c.removed_get(d));
            }
            out.push((c.value(), poss, removed, c.g.solo, c.g.in_invalid_group));
        }
    }
    out
}

fn set_grid(s: &mut State, grid: &[[u8; 9]; 9]) {
    for y in 0..9 {
        for x in 0..9 {
            if grid[y][x] != 0 {
                s.set_value(y, x, Some(grid[y][x]));
            }
        }
    }
}

#[test]
fn elimination_clears_peers() {
    let mut s = State::new();
    s.set_value(0, 0, Some(5));
    s.regenerate();
    // every cell sharing row 0, column 0 or the top-left box loses 5
    for x in 1..9 {
        assert!(!s.cell(0, x).poss_get(5));
    }
    for y in 1..9 {
        assert!(!s.cell(y, 0).poss_get(5));
    }
    for y in 1..3 {
        for x in 1..3 {
            assert!(!s.cell(y, x).poss_get(5));
        }
    }
    // the assigned cell keeps exactly its own value
    for d in 1..=9u8 {
        assert_eq!(s.cell(0, 0).poss_get(d), d == 5);
    }
    // an unrelated cell keeps all nine candidates
    for d in 1..=9u8 {
        assert!(s.cell(4, 4).poss_get(d));
    }
}

#[test]
fn conflict_empties_both_cells() {
    let mut s = State::new();
    s.set_value(0, 0, Some(5));
    s.set_value(0, 5, Some(5));
    s.regenerate();
    for d in 1..=9u8 {
        assert!(!s.cell(0, 0).poss_get(d));
        assert!(!s.cell(0, 5).poss_get(d));
    }
}

#[test]
fn conflict_in_box_empties_both() {
    // the two cells share only a box and sit in different rows, so the
    // later-scanned one also has to strip the earlier one's own entry
    let mut s = State::new();
    s.set_value(0, 0, Some(5));
    s.set_value(1, 1, Some(5));
    s.regenerate();
    for d in 1..=9u8 {
        assert!(!s.cell(0, 0).poss_get(d));
        assert!(!s.cell(1, 1).poss_get(d));
    }
}

#[test]
fn default_board_equals_new_board() {
    let a = State::default();
    let b = State::new();
    assert_eq!(snapshot(&a), snapshot(&b));
}

#[test]
fn hidden_single_in_row() {
    let mut s = State::new();
    for x in 0..8 {
        s.set_value(0, x, Some((x + 1) as u8));
    }
    s.regenerate();
    assert_eq!(s.cell(0, 8).g.solo, SoloState::Unique(9));
}

#[test]
fn naked_single_is_found_and_filled() {
    let mut s = State::new();
    // eliminate 2, 3, 4 through row 0; 5, 6, 7 through column 0;
    // 8, 9 through the top-left box: only 1 remains at (0, 0)
    s.set_value(0, 3, Some(2));
    s.set_value(0, 4, Some(3));
    s.set_value(0, 5, Some(4));
    s.set_value(3, 0, Some(5));
    s.set_value(4, 0, Some(6));
    s.set_value(5, 0, Some(7));
    s.set_value(1, 1, Some(8));
    s.set_value(2, 2, Some(9));
    s.regenerate();
    let mut possible = Vec::new();
    for d in 1..=9u8 {
        if s.cell(0, 0).poss_get(d) {
            possible.push(d);
        }
    }
    assert_eq!(possible, vec![1]);
    assert!(s.fill());
    assert_eq!(s.cell(0, 0).value(), Some(1));
}

#[test]
fn unsatisfiable_row_is_marked() {
    let mut s = State::new();
    // pencil-mark 5 away from every cell of row 2 while no cell holds 5
    for x in 0..9 {
        s.toggle_pencil_mark(2, x, 5);
    }
    s.regenerate();
    for x in 0..9 {
        assert!(s.cell(2, x).g.in_invalid_group);
    }
    // a row that still admits 5 somewhere is not marked
    for x in 0..9 {
        assert!(!s.cell(4, x).g.in_invalid_group);
    }
}

#[test]
fn regenerate_is_idempotent() {
    let mut s = State::new();
    s.set_value(0, 0, Some(5));
    s.set_value(0, 5, Some(5));
    s.set_value(3, 4, Some(1));
    s.toggle_pencil_mark(6, 6, 7);
    s.regenerate();
    let first = snapshot(&s);
    s.regenerate();
    let second = snapshot(&s);
    assert_eq!(first, second);
}

#[test]
fn clear_then_regenerate_is_all_default() {
    let mut s = State::new();
    s.set_value(0, 0, Some(5));
    s.set_value(8, 8, Some(1));
    s.toggle_pencil_mark(4, 4, 3);
    s.regenerate();
    s.clear();
    s.regenerate();
    for y in 0..9 {
        for x in 0..9 {
            let c = s.cell(y, x);
            assert_eq!(c.value(), None);
            for d in 1..=9u8 {
                assert!(c.poss_get(d));
                assert!(!c.removed_get(d));
            }
            assert_eq!(c.g.solo, SoloState::Empty);
            assert!(!c.g.in_invalid_group);
        }
    }
}

#[test]
fn fill_regenerate_converges_to_solution() {
    let puz: [[u8; 9]; 9] = [
        [0, 0, 0, 0, 0, 8, 0, 0, 5],
        [3, 0, 0, 9, 0, 0, 8, 0, 0],
        [0, 0, 1, 5, 0, 0, 0, 0, 9],
        [5, 0, 0, 7, 0, 3, 4, 0, 0],
        [8, 0, 4, 0, 0, 0, 1, 0, 0],
        [0, 0, 0, 0, 0, 4, 2, 0, 0],
        [0, 6, 7, 4, 1, 0, 0, 8, 0],
        [0, 2, 5, 0, 0, 0, 0, 0, 0],
        [0, 0, 0, 0, 0, 6, 0, 0, 0],
    ];
    let sol: [[u8; 9]; 9] = [
        [2, 4, 9, 3, 6, 8, 7, 1, 5],
        [3, 5, 6, 9, 7, 1, 8, 2, 4],
        [7, 8, 1, 5, 4, 2, 6, 3, 9],
        [5, 1, 2, 7, 8, 3, 4, 9, 6],
        [8, 7, 4, 6, 2, 9, 1, 5, 3],
        [6, 9, 3, 1, 5, 4, 2, 7, 8],
        [9, 6, 7, 4, 1, 5, 3, 8, 2],
        [4, 2, 5, 8, 3, 7, 9, 6, 1],
        [1, 3, 8, 2, 9, 6, 5, 4, 7],
    ];
    let mut s = State::new();
    set_grid(&mut s, &puz);
    let mut rounds = 0;
    loop {
        s.regenerate();
        if !s.fill() {
            break;
        }
        rounds += 1;
        assert!(rounds <= 81, "fill/regenerate failed to converge");
    }
    s.regenerate();
    for y in 0..9 {
        for x in 0..9 {
            assert_eq!(s.cell(y, x).value(), Some(sol[y][x]));
            // the final board is consistent: each value is still possible
            assert!(s.cell(y, x).poss_get(sol[y][x]));
        }
    }
}

#[test]
fn fill_on_stuck_board_returns_false() {
    let mut s = State::new();
    s.regenerate();
    // the empty board forces nothing
    assert!(!s.fill());
    for y in 0..9 {
        for x in 0..9 {
            assert_eq!(s.cell(y, x).value(), None);
        }
    }
}

#[test]
fn fill_on_full_board_returns_false() {
    let sol: [[u8; 9]; 9] = [
        [2, 4, 9, 3, 6, 8, 7, 1, 5],
        [3, 5, 6, 9, 7, 1, 8, 2, 4],
        [7, 8, 1, 5, 4, 2, 6, 3, 9],
        [5, 1, 2, 7, 8, 3, 4, 9, 6],
        [8, 7, 4, 6, 2, 9, 1, 5, 3],
        [6, 9, 3, 1, 5, 4, 2, 7, 8],
        [9, 6, 7, 4, 1, 5, 3, 8, 2],
        [4, 2, 5, 8, 3, 7, 9, 6, 1],
        [1, 3, 8, 2, 9, 6, 5, 4, 7],
    ];
    let mut s = State::new();
    set_grid(&mut s, &sol);
    s.regenerate();
    assert!(!s.fill());
}

#[test]
fn set_value_can_clear_a_cell() {
    let mut s = State::new();
    s.set_value(4, 4, Some(7));
    s.regenerate();
    assert_eq!(s.cell(4, 4).value(), Some(7));
    assert!(!s.cell(4, 5).poss_get(7));
    s.set_value(4, 4, None);
    s.regenerate();
    assert_eq!(s.cell(4, 4).value(), None);
    assert!(s.cell(4, 5).poss_get(7));
}

#[test]
fn toggle_pencil_mark_flips_and_flips_back() {
    let mut s = State::new();
    s.toggle_pencil_mark(3, 3, 6);
    assert!(s.cell(3, 3).removed_get(6));
    s.toggle_pencil_mark(3, 3, 6);
    assert!(!s.cell(3, 3).removed_get(6));
}

#[test]
fn toggle_pencil_mark_ignores_filled_cell() {
    let mut s = State::new();
    s.set_value(3, 3, Some(2));
    s.regenerate();
    s.toggle_pencil_mark(3, 3, 6);
    assert!(!s.cell(3, 3).removed_get(6));
}

#[test]
fn toggle_pencil_mark_ignores_impossible_digit() {
    let mut s = State::new();
    s.set_value(0, 0, Some(5));
    s.regenerate();
    // 5 is no longer a candidate at (0, 1), so the toggle is a no-op
    s.toggle_pencil_mark(0, 1, 5);
    assert!(!s.cell(0, 1).removed_get(5));
}

#[test]
fn pencil_mark_blocks_naked_single_fill() {
    let mut s = State::new();
    // only digit 1 remains at (0, 0), as in the naked-single test
    s.set_value(0, 3, Some(2));
    s.set_value(0, 4, Some(3));
    s.set_value(0, 5, Some(4));
    s.set_value(3, 0, Some(5));
    s.set_value(4, 0, Some(6));
    s.set_value(5, 0, Some(7));
    s.set_value(1, 1, Some(8));
    s.set_value(2, 2, Some(9));
    s.regenerate();
    // the user strikes the last candidate out: nothing is forced any more,
    // except through hidden singles nominated by peers' groups
    s.toggle_pencil_mark(0, 0, 1);
    s.regenerate();
    assert!(s.cell(0, 0).removed_get(1));
    let live: Vec<u8> = (1..=9u8)
        .filter(|&d| s.cell(0, 0).poss_get(d) && !s.cell(0, 0).removed_get(d))
        .collect();
    assert_eq!(live, Vec::<u8>::new());
}

#[test]
fn ambiguous_solo_when_two_digits_nominate_one_cell() {
    let mut s = State::new();
    // row 0 holds 1..=7; digits 8 and 9 can each go in (0, 7) or (0, 8)
    for x in 0..7 {
        s.set_value(0, x, Some((x + 1) as u8));
    }
    s.regenerate();
    assert_eq!(s.cell(0, 8).g.solo, SoloState::Empty);
    // block 8 and 9 at (0, 7) through its column: row 0 now nominates
    // (0, 8) for both digits, so the hint becomes unreliable
    s.set_value(5, 7, Some(8));
    s.set_value(6, 7, Some(9));
    s.regenerate();
    assert_eq!(s.cell(0, 8).g.solo, SoloState::Ambiguous);
}
