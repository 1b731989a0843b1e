use sudoku_engine::Cell;
use sudoku_engine::SoloState;
use sudoku_engine::SudokuArray;

#[test]
fn sudoku_array_new_fills_every_digit() {
    let a: SudokuArray<bool> = SudokuArray::new(true);
    for d in 1..=9u8 {
        assert!(a.get(d));
    }
}

#[test]
fn sudoku_array_set_changes_one_entry() {
    let mut a: SudokuArray<u32> = SudokuArray::new(7);
    a.set(3, 42);
    for d in 1..=9u8 {
        assert_eq!(a.get(d), if d == 3 { 42 } else { 7 });
    }
}

#[test]
fn sudoku_array_enumerate_pairs_digits_with_entries() {
    let mut a: SudokuArray<bool> = SudokuArray::new(false);
    a.set(2, true);
    a.set(9, true);
    let pairs = a.enumerate();
    assert_eq!(pairs.len(), 9);
    for (i, &(d, v)) in pairs.iter().enumerate() {
        assert_eq!(d as usize, i + 1);
        assert_eq!(v, d == 2 || d == 9);
    }
}

#[test]
fn solo_state_accumulates_first_wins_then_poisons() {
    let mut s: SoloState<u8> = SoloState::Empty;
    s.increment(4);
    assert_eq!(s, SoloState::Unique(4));
    s.increment(4);
    assert_eq!(s, SoloState::Unique(4));
    s.increment(6);
    assert_eq!(s, SoloState::Ambiguous);
    s.increment(4);
    assert_eq!(s, SoloState::Ambiguous);
}

#[test]
fn solo_state_works_for_positions_too() {
    let mut s: SoloState<usize> = SoloState::Empty;
    s.increment(17);
    assert_eq!(s, SoloState::Unique(17));
    s.increment(3);
    assert_eq!(s, SoloState::Ambiguous);
}

#[test]
fn default_cell_is_all_open() {
    let c = Cell::default();
    assert_eq!(c.value(), None);
    assert_eq!(c.g.solo, SoloState::Empty);
    assert!(!c.g.in_invalid_group);
    let pairs = c.possibility_iter();
    assert_eq!(pairs.len(), 9);
    for (i, &(d, live)) in pairs.iter().enumerate() {
        assert_eq!(d as usize, i + 1);
        assert!(live);
    }
}

#[test]
fn default_cell_has_no_forced_value() {
    // nine live candidates and no solo hint: attempt_fill must do nothing
    let mut c = Cell::default();
    assert!(!c.attempt_fill());
    assert_eq!(c.value(), None);
}
