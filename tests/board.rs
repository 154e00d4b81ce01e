use sudoku::board::Resolution;
use sudoku::{Board, CellStates};

#[test]
fn test_remove_candidate() {
    let mut board = Board::empty();
    assert!(board.cell(0, 0).has_candidate(1));
    assert!(board.cell(0, 0).has_candidate(5));
    assert!(board.cell(0, 0).has_candidate(9));

    board.set(0, 0, Some(1));
    assert!(!board.cell(0, 0).has_candidate(1));
    assert!(!board.cell(0, 8).has_candidate(1));
    assert!(!board.cell(8, 0).has_candidate(1));
    assert!(!board.cell(2, 2).has_candidate(1));
    assert!(board.cell(2, 2).has_candidate(2));

    board.set(1, 1, Some(2));
    assert!(!board.cell(2, 2).has_candidate(2));
    assert!(board.cell(4, 4).has_candidate(2));
}

#[test]
fn test_check() {
    let mut board = Board::empty();
    board.set(2, 3, Some(1));
    assert!(board.check(2, 3));

    board.set(1, 5, Some(1));
    assert!(!board.check(2, 3));
    assert!(!board.check(1, 5));
}

#[test]
fn test_randomize() {
    let mut board = Board::empty();
    board.initialize();
    while !board.try_resolve() {
        board.initialize();
    }

    board.randomize(3);
    assert!(board.try_resolve());
}

#[test]
fn test_effect_cells() {
    let board = Board::empty();
    let indexes = board.effect_cell_indexes(6, 3);
    assert!(!indexes.contains(&0));
    assert!(!indexes.contains(&53));
    assert!(indexes.contains(&54));
    assert!(indexes.contains(&62));
    assert!(!indexes.contains(&63));
    assert!(!indexes.contains(&65));
    assert!(indexes.contains(&66));
    assert!(indexes.contains(&67));
    assert!(indexes.contains(&68));
    assert!(!indexes.contains(&69));
    assert!(indexes.contains(&77));
    assert!(!indexes.contains(&78));

    let indexes = board.effect_cell_indexes(0, 0);
    assert!(!indexes.contains(&0));
    assert!(indexes.contains(&1));
    assert!(indexes.contains(&2));
    assert!(indexes.contains(&3));
    assert!(indexes.contains(&4));
    assert!(indexes.contains(&5));
    assert!(indexes.contains(&6));
    assert!(indexes.contains(&7));
    assert!(indexes.contains(&8));

    assert!(indexes.contains(&9));
    assert!(indexes.contains(&18));
    assert!(indexes.contains(&27));
    assert!(indexes.contains(&36));
    assert!(indexes.contains(&45));
    assert!(indexes.contains(&54));
    assert!(indexes.contains(&63));
    assert!(indexes.contains(&72));

    assert!(indexes.contains(&10));
    assert!(indexes.contains(&11));
    assert!(indexes.contains(&19));
    assert!(indexes.contains(&20));

    let indexes = board.effect_cell_indexes(2, 3);
    assert!(indexes.contains(&3));
    assert!(indexes.contains(&23));
}

#[test]
fn test_cell_state() {
    let mut board = Board::empty();
    board.initialize();

    let mut pre_filled = 0;
    for i in 0..=80 {
        if board.cell(i / 9, i % 9).selected().is_some() {
            pre_filled += 1;
            assert!(board.cell(i / 9, i % 9).states() == CellStates::pre_filled());
        }
    }
    assert_eq!(pre_filled, 11);

    let mut board = Board::empty();
    board.initialize();
    while !board.try_resolve() {
        board.initialize();
    }

    let mut pre_filled = 0;
    let mut filled = 0;
    for i in 0..=80 {
        if board.cell(i / 9, i % 9).states() == CellStates::pre_filled() {
            pre_filled += 1;
        }
        if board.cell(i / 9, i % 9).states() == CellStates::filled() {
            filled += 1;
        }
    }
    assert_eq!(11, pre_filled);
    assert_eq!(70, filled);
}

fn highlighted(board: &Board, row: usize, column: usize) -> bool {
    board.cell(row, column).states().intersection(CellStates::high_light()) == CellStates::high_light()
}

#[test]
fn test_highlight_set() {
    let mut board = Board::empty();
    assert_eq!(false, highlighted(&board, 0, 0));

    board.set_current_highlight(Some(1));
    board.set(0, 0, Some(1));
    assert_eq!(true, highlighted(&board, 0, 0));

    board.set(0, 0, None);
    assert_eq!(false, highlighted(&board, 0, 0));

    board.set_current_highlight(None);
    assert_eq!(false, highlighted(&board, 0, 0));

    board.set(0, 0, Some(2));
    board.set_current_highlight(Some(2));
    assert_eq!(true, highlighted(&board, 0, 0));

    board.set_current_highlight(None);
    assert_eq!(false, highlighted(&board, 0, 0));
}

fn in_reach(board: &Board, row: usize, column: usize, pos: usize) -> bool {
    pos == row * 9 + column || board.effect_cell_indexes(row, column).contains(&pos)
}

#[test]
fn set_on_empty_board_takes_candidate_from_reach_only() {
    for &(row, column, v) in &[(0usize, 0usize, 1u8), (4, 4, 5), (8, 2, 9), (6, 3, 7)] {
        let mut board = Board::empty();
        assert!(!board.set(row, column, Some(v)));
        for pos in 0..81 {
            let has = board.cell(pos / 9, pos % 9).has_candidate(v);
            assert_eq!(has, !in_reach(&board, row, column, pos), "cell {}", pos);
            for other in 1..=9u8 {
                if other != v {
                    assert!(board.cell(pos / 9, pos % 9).has_candidate(other));
                }
            }
        }
    }
}

fn candidate_masks(board: &Board) -> Vec<u32> {
    (0..81).map(|i| board.cell(i / 9, i % 9).candidate_u32()).collect()
}

#[test]
fn clearing_a_value_restores_candidates() {
    let mut board = Board::empty();
    board.set(0, 0, Some(1));
    board.set(0, 4, Some(2));
    board.set(4, 0, Some(2));
    let before = candidate_masks(&board);
    board.set(1, 1, Some(2));
    assert_ne!(before, candidate_masks(&board));
    board.set(1, 1, None);
    assert_eq!(before, candidate_masks(&board));

    board.set(2, 2, Some(3));
    board.set(2, 2, Some(4));
    board.set(2, 2, None);
    assert_eq!(before, candidate_masks(&board));
}

#[test]
fn check_is_false_exactly_when_a_peer_holds_the_value() {
    let mut board = Board::empty();
    board.set(0, 0, Some(5));
    board.set(4, 4, Some(5));
    assert!(board.check(0, 0));
    assert!(board.check(4, 4));
    assert!(board.check(8, 8));

    board.set(1, 2, Some(5));
    assert!(!board.check(0, 0));
    assert!(!board.check(1, 2));
    assert!(board.check(4, 4));

    board.set(1, 2, None);
    board.set(4, 0, Some(5));
    assert!(!board.check(0, 0));
    assert!(!board.check(4, 4));
    assert!(!board.check(4, 0));
}

#[test]
fn initialize_places_eleven_conflict_free_givens() {
    for _ in 0..20 {
        let mut board = Board::empty();
        board.initialize();
        let mut givens = 0;
        for i in 0..81 {
            let cell = board.cell(i / 9, i % 9);
            assert_eq!(cell.is_prefilled(), cell.selected().is_some());
            if cell.is_prefilled() {
                givens += 1;
            }
            assert!(board.check(i / 9, i % 9));
        }
        assert_eq!(givens, 11);
    }
}

#[test]
fn generated_puzzle_is_solvable() {
    let mut board = Board::empty();
    assert!(board.generate());
    let mut empty = 0;
    for i in 0..81 {
        let cell = board.cell(i / 9, i % 9);
        assert!(board.check(i / 9, i % 9));
        if cell.selected().is_none() {
            empty += 1;
            assert_eq!(cell.states(), CellStates::none());
        } else {
            assert!(cell.is_prefilled());
            assert_eq!(cell.candidate_u32(), 0);
        }
    }
    assert_eq!(empty, 50);
    assert!(board.try_resolve());
    for i in 0..81 {
        assert!(board.cell(i / 9, i % 9).selected().is_some());
        assert!(board.check(i / 9, i % 9));
    }
}

#[test]
fn randomize_keeps_a_solved_grid_valid() {
    let mut board = Board::empty();
    board.initialize();
    while !board.try_resolve() {
        board.initialize();
    }
    let mut values = Vec::new();
    for i in 0..81 {
        values.push(board.cell(i / 9, i % 9).selected());
    }
    board.randomize(30);
    for i in 0..81 {
        assert!(board.cell(i / 9, i % 9).selected().is_some());
        assert!(board.check(i / 9, i % 9));
    }
    let mut moved = values.clone();
    moved.clear();
    for i in 0..81 {
        moved.push(board.cell(i / 9, i % 9).selected());
    }
    let mut a: Vec<u8> = values.iter().map(|v| v.unwrap()).collect();
    let mut b: Vec<u8> = moved.iter().map(|v| v.unwrap()).collect();
    a.sort();
    b.sort();
    assert_eq!(a, b);
}

#[test]
fn set_reports_a_peer_left_without_candidates() {
    let mut board = Board::empty();
    for c in 0..8 {
        assert!(!board.set(0, c, Some(c as u8 + 1)));
    }
    assert!(board.cell(0, 8).has_candidate(9));
    assert!(board.set(8, 8, Some(9)));
    assert!(!board.set(8, 8, Some(8)));
}

#[test]
fn effect_cells_are_twenty_distinct_peers() {
    let board = Board::empty();
    for row in 0..9 {
        for column in 0..9 {
            let indexes = board.effect_cell_indexes(row, column);
            let mut seen = indexes.to_vec();
            seen.sort();
            seen.dedup();
            assert_eq!(seen.len(), 20);
            for idx in indexes.iter() {
                let (r, c) = (idx / 9, idx % 9);
                assert!(*idx != row * 9 + column);
                assert!(r == row || c == column || (r / 3 == row / 3 && c / 3 == column / 3));
            }
        }
    }
    assert_eq!(
        board.effect_cell_indexes(0, 0),
        [1, 2, 3, 4, 5, 6, 7, 8, 9, 18, 27, 36, 45, 54, 63, 72, 10, 11, 19, 20]
    );
}

#[test]
fn highlight_follows_the_values() {
    let mut board = Board::empty();
    board.set(0, 0, Some(3));
    board.set(5, 5, Some(3));
    board.set(2, 7, Some(4));
    board.set_current_highlight(Some(3));
    assert!(highlighted(&board, 0, 0));
    assert!(highlighted(&board, 5, 5));
    assert!(!highlighted(&board, 2, 7));
    board.set_current_highlight(Some(4));
    assert!(!highlighted(&board, 0, 0));
    assert!(highlighted(&board, 2, 7));
    assert!(board.cell(2, 7).states().contains(CellStates::filled()));
}

#[test]
fn place_given_marks_an_admitted_number_as_given() {
    let mut board = Board::empty();
    assert!(board.place_given(10, 4));
    let cell = board.cell(1, 1);
    assert_eq!(cell.selected(), Some(4));
    assert_eq!(cell.states(), CellStates::pre_filled());
    assert_eq!(cell.candidate_u32(), 0);
    assert!(!board.cell(1, 8).has_candidate(4));
    assert!(board.cell(8, 8).has_candidate(4));

    assert!(!board.place_given(10, 5));
    assert_eq!(board.cell(1, 1).selected(), Some(4));
    assert!(!board.place_given(11, 4));
    assert_eq!(board.cell(1, 2).selected(), None);
    assert_eq!(board.cell(1, 2).states(), CellStates::none());
    assert!(board.place_given(11, 5));
}

#[test]
fn initialize_reports_eleven_givens() {
    let mut board = Board::empty();
    assert!(board.initialize());
    let givens = (0..81).filter(|i| board.cell(i / 9, i % 9).is_prefilled()).count();
    assert_eq!(givens, 11);
}

#[test]
fn try_resolve_leaves_a_complete_grid_alone() {
    let mut board = Board::empty();
    while !(board.initialize() && board.try_resolve()) {}
    let before: Vec<(Option<u8>, u32, u32)> = (0..81)
        .map(|i| {
            let c = board.cell(i / 9, i % 9);
            (c.selected(), c.states().bits(), c.candidate_u32())
        })
        .collect();
    assert!(board.try_resolve());
    let after: Vec<(Option<u8>, u32, u32)> = (0..81)
        .map(|i| {
            let c = board.cell(i / 9, i % 9);
            (c.selected(), c.states().bits(), c.candidate_u32())
        })
        .collect();
    assert_eq!(before, after);
}

#[test]
fn randomize_with_no_pass_changes_nothing() {
    let mut board = Board::empty();
    while !(board.initialize() && board.try_resolve()) {}
    let before: Vec<Option<u8>> = (0..81).map(|i| board.cell(i / 9, i % 9).selected()).collect();
    board.randomize(0);
    let after: Vec<Option<u8>> = (0..81).map(|i| board.cell(i / 9, i % 9).selected()).collect();
    assert_eq!(before, after);
}

#[test]
fn resolve_solves_an_empty_grid() {
    let mut board = Board::empty();
    assert_eq!(board.resolve(), Resolution::Solved);
    for i in 0..81 {
        assert!(board.cell(i / 9, i % 9).selected().is_some());
        assert!(board.check(i / 9, i % 9));
    }
    let first_row: Vec<u8> = (0..9).map(|c| board.cell(0, c).selected().unwrap()).collect();
    assert_eq!(first_row, vec![1, 2, 3, 4, 5, 6, 7, 8, 9]);
}

#[test]
fn resolve_reports_a_grid_without_solution() {
    let mut board = Board::empty();
    for c in 0..8 {
        board.set(0, c, Some(c as u8 + 1));
    }
    board.set(8, 8, Some(9));
    assert_eq!(board.resolve(), Resolution::Unsolvable);
    assert!(!board.try_resolve());
}

#[test]
fn solve_succeeds_on_a_generated_puzzle() {
    let mut board = Board::empty();
    assert!(board.generate());
    let givens: Vec<(usize, u8)> = (0..81)
        .filter_map(|i| board.cell(i / 9, i % 9).selected().map(|v| (i, v)))
        .collect();
    assert_eq!(givens.len(), 31);
    assert_eq!(board.solve(), Resolution::Solved);
    for i in 0..81 {
        assert!(board.cell(i / 9, i % 9).selected().is_some());
        assert!(board.check(i / 9, i % 9));
    }
    for (i, v) in givens {
        assert_eq!(board.cell(i / 9, i % 9).selected(), Some(v));
        assert!(board.cell(i / 9, i % 9).is_prefilled());
    }
}

#[test]
fn solve_reports_a_grid_without_solution() {
    let mut board = Board::empty();
    for c in 0..8 {
        board.set(0, c, Some(c as u8 + 1));
    }
    board.set(8, 8, Some(9));
    assert_eq!(board.solve(), Resolution::Unsolvable);
}

#[test]
fn resolve_fills_open_cells_with_filled_flag() {
    let mut board = Board::empty();
    while !(board.initialize() && board.resolve() == Resolution::Solved) {}
    let mut pre_filled = 0;
    let mut filled = 0;
    for i in 0..81 {
        let states = board.cell(i / 9, i % 9).states();
        if states == CellStates::pre_filled() {
            pre_filled += 1;
        }
        if states == CellStates::filled() {
            filled += 1;
        }
    }
    assert_eq!(pre_filled, 11);
    assert_eq!(filled, 70);
}
