use sudoku_gen::board::{unpack_index, Sudoku};
use sudoku_gen::candidates::PossibleEntries;
use sudoku_gen::human::SudokuHumanLikeSolver;

#[test]
fn test_unpack_index() {
    assert_eq!(unpack_index(0), (0, 0));
    assert_eq!(unpack_index(1), (1, 0));
    assert_eq!(unpack_index(2), (2, 0));
    assert_eq!(unpack_index(3), (3, 0));
    assert_eq!(unpack_index(4), (4, 0));
    assert_eq!(unpack_index(5), (5, 0));
    assert_eq!(unpack_index(80), (8, 8));
}

#[test]
fn test_update_block() {
    let mut p = PossibleEntries::default();
    let mut s = Sudoku::default();
    s.field[1][1] = 4;
    p.update_block(s.field[1][1], 1, 1);
    for i in 0..3 {
        for j in 0..3 {
            for k in 0..9 {
                if k == 3 {
                    assert_eq!(p.field[i][j][k], false);
                } else {
                    assert_eq!(p.field[i][j][k], true);
                }
            }
        }
    }
}

#[test]
fn test_unpack_pack_roundtrip() {
    for index in 0..81 {
        let (x, y) = unpack_index(index);
        assert!(x < 9 && y < 9);
        assert_eq!(y * 9 + x, index);
    }
}

#[test]
fn test_update_line_clears_row_and_column_only() {
    let mut p = PossibleEntries::default();
    p.update_line(7, 2, 5);
    for a in 0..9 {
        for b in 0..9 {
            for k in 0..9 {
                let expected = !(k == 6 && (a == 2 || b == 5));
                assert_eq!(p.field[a][b][k], expected);
            }
        }
    }
}

#[test]
fn test_update_line_with_zero_is_noop() {
    let mut p = PossibleEntries::default();
    p.update_line(0, 4, 4);
    for a in 0..9 {
        for b in 0..9 {
            for k in 0..9 {
                assert!(p.field[a][b][k]);
            }
        }
    }
}

#[test]
fn test_elimination_is_idempotent() {
    let mut p = PossibleEntries::default();
    p.update_line(3, 1, 8);
    p.update_block(3, 1, 8);
    let snapshot = p;
    p.update_line(3, 1, 8);
    p.update_block(3, 1, 8);
    assert_eq!(p, snapshot);
}

#[test]
fn test_pin_cell_collapses_to_singleton() {
    let mut p = PossibleEntries::default();
    p.pin_cell(9, 0, 0);
    for k in 0..9 {
        assert_eq!(p.field[0][0][k], k == 8);
    }
    for a in 0..9 {
        for b in 0..9 {
            if (a, b) != (0, 0) {
                for k in 0..9 {
                    assert!(p.field[a][b][k]);
                }
            }
        }
    }
}

#[test]
fn test_pin_cell_with_zero_is_noop() {
    let mut p = PossibleEntries::default();
    let snapshot = p;
    p.pin_cell(0, 3, 3);
    assert_eq!(p, snapshot);
}

#[test]
fn test_get_unique_value_none_for_full_candidate_set() {
    let p = PossibleEntries::default();
    assert_eq!(p.get_unique_value(4, 4), 0);
}

#[test]
fn test_get_unique_value_none_for_empty_candidate_set() {
    let mut p = PossibleEntries::default();
    for k in 0..9 {
        p.field[2][2][k] = false;
    }
    assert_eq!(p.get_unique_value(2, 2), 0);
}

#[test]
fn test_get_unique_value_exact_digit_for_each_singleton() {
    for digit in 1..=9u8 {
        let mut p = PossibleEntries::default();
        p.pin_cell(digit, 6, 1);
        assert_eq!(p.get_unique_value(6, 1), digit);
    }
}

#[test]
fn test_get_unique_value_none_for_two_candidates() {
    let mut p = PossibleEntries::default();
    for k in 0..9 {
        p.field[5][5][k] = k == 2 || k == 7;
    }
    assert_eq!(p.get_unique_value(5, 5), 0);
}

#[test]
fn test_update_field_eliminates_across_units() {
    let mut s = Sudoku::default();
    s.set(0, 0, 5);
    let mut p = PossibleEntries::default();
    p.update_field(&s);
    for b in 0..9 {
        assert!(!p.field[0][b][4], "digit 5 must leave line 0");
        assert!(!p.field[b][0][4], "digit 5 must leave column 0");
    }
    for a in 0..3 {
        for b in 0..3 {
            assert!(!p.field[a][b][4], "digit 5 must leave its block");
        }
    }
    assert!(p.field[4][4][4], "an unrelated cell keeps candidate 5");
    assert!(p.field[0][1][0], "other digits stay on the line");
}

#[test]
fn test_from_sudoku_pins_given_digits() {
    let mut s = Sudoku::default();
    s.set(3, 4, 6);
    let solver = SudokuHumanLikeSolver::from_sudoku(s);
    for k in 0..9 {
        assert_eq!(solver.p.field[3][4][k], k == 5);
    }
    for k in 0..9 {
        assert!(solver.p.field[0][0][k]);
    }
    assert_eq!(solver.s.get(3, 4), 6);
}

#[test]
fn test_board_get_set() {
    let mut s = Sudoku::default();
    for x in 0..9 {
        for y in 0..9 {
            assert_eq!(s.get(x, y), 0);
        }
    }
    s.set(8, 8, 9);
    assert_eq!(s.get(8, 8), 9);
    assert_eq!(s.get(8, 7), 0);
}
