use sudoku::{Cell, CellStates};

#[test]
fn reset_candidate_makes_every_number_available() {
    let mut cell = Cell::new();
    for v in 1..=9u8 {
        cell.remove_candidate(v);
    }
    cell.remove_candidate(4);
    cell.reset_candidate();
    for v in 1..=9u8 {
        assert!(cell.has_candidate(v));
    }
    assert_eq!(cell.candidate_u32(), 0b11_1111_1110);
}

#[test]
fn candidate_mask_has_one_bit_per_candidate() {
    let mut cell = Cell::new();
    assert_eq!(cell.candidate_u32(), 1022);
    cell.remove_candidate(1);
    cell.remove_candidate(9);
    assert_eq!(cell.candidate_u32(), 0b01_1111_1100);
    cell.add_candidate(9);
    assert_eq!(cell.candidate_u32(), 0b11_1111_1100);
}

#[test]
fn remove_candidate_reports_a_dead_cell() {
    let mut cell = Cell::new();
    for v in 1..9u8 {
        assert!(!cell.remove_candidate(v));
    }
    assert!(cell.remove_candidate(9));
    assert!(cell.remove_candidate(9));
    cell.set_select(Some(3));
    assert!(!cell.remove_candidate(2));
}

#[test]
fn counters_are_reference_counts() {
    let mut cell = Cell::new();
    cell.remove_candidate(5);
    cell.remove_candidate(5);
    cell.add_candidate(5);
    assert!(!cell.has_candidate(5));
    cell.add_candidate(5);
    assert!(cell.has_candidate(5));
}

#[test]
fn best_candidates_resume_above_the_value() {
    let mut cell = Cell::new();
    assert_eq!(cell.best_candidates(), vec![1, 2, 3, 4, 5, 6, 7, 8, 9]);
    cell.remove_candidate(6);
    cell.set_select(Some(3));
    assert_eq!(cell.best_candidates(), vec![4, 5, 7, 8, 9]);
    cell.set_select(Some(9));
    assert!(cell.best_candidates().is_empty());
}

#[test]
fn a_given_has_no_candidates_and_ignores_changes() {
    let mut cell = Cell::new();
    cell.set_select(Some(7));
    cell.set_states(CellStates::pre_filled());
    assert!(cell.is_prefilled());
    assert_eq!(cell.candidate_u32(), 0);
    assert!(!cell.remove_candidate(7));
    cell.add_candidate(7);
    assert!(!cell.has_candidate(7));
    assert_eq!(cell.selected(), Some(7));

    let mut other = Cell::new();
    other.set_states(CellStates::filled().union(CellStates::high_light()));
    assert!(!other.is_prefilled());
    assert_eq!(other.candidate_u32(), 1022);
}

#[test]
fn cell_states_combine_as_bits() {
    let s = CellStates::filled().union(CellStates::conflict()).union(CellStates::selected());
    assert_eq!(s.bits(), 0b10011);
    assert!(s.contains(CellStates::filled()));
    assert!(!s.contains(CellStates::pre_filled()));
    assert_eq!(s.difference(CellStates::filled()).bits(), 0b10010);
    assert_eq!(s.intersection(CellStates::checking()), CellStates::none());
    assert!(CellStates::pre_filled().contains(CellStates::filled()));
}
