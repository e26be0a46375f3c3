use sudoku_gen::board::Sudoku;
use sudoku_gen::human::SudokuHumanLikeSolver;
use sudoku_gen::ordering::shuffled;

/// Every row, column and 3x3 block of a complete grid holds each digit
/// 1..=9 exactly once.
fn assert_valid_complete(s: &Sudoku) {
    for x in 0..9 {
        let mut seen = [0; 10];
        for y in 0..9 {
            seen[s.get(x, y) as usize] += 1;
        }
        for d in 1..=9 {
            assert_eq!(seen[d], 1, "line {} must hold digit {} once", x, d);
        }
    }
    for y in 0..9 {
        let mut seen = [0; 10];
        for x in 0..9 {
            seen[s.get(x, y) as usize] += 1;
        }
        for d in 1..=9 {
            assert_eq!(seen[d], 1, "column {} must hold digit {} once", y, d);
        }
    }
    for bx in 0..3 {
        for by in 0..3 {
            let mut seen = [0; 10];
            for dx in 0..3 {
                for dy in 0..3 {
                    seen[s.get(bx * 3 + dx, by * 3 + dy) as usize] += 1;
                }
            }
            for d in 1..=9 {
                assert_eq!(seen[d], 1, "block must hold digit {} once", d);
            }
        }
    }
}

/// No unit of a (possibly partial) grid repeats a nonzero digit.
fn assert_no_conflicts(s: &Sudoku) {
    for x1 in 0..9 {
        for y1 in 0..9 {
            let v = s.get(x1, y1);
            if v == 0 {
                continue;
            }
            for x2 in 0..9 {
                for y2 in 0..9 {
                    if (x1, y1) == (x2, y2) {
                        continue;
                    }
                    let shares_unit = x1 == x2 || y1 == y2 || (x1 / 3 == x2 / 3 && y1 / 3
                        == y2 / 3);
                    if shares_unit {
                        assert_ne!(v, s.get(x2, y2));
                    }
                }
            }
        }
    }
}

#[test]
fn test_solve_ordered_completes_empty_grid() {
    let mut s = Sudoku::default();
    assert!(s.solve_ordered());
    assert_valid_complete(&s);
}

#[test]
fn test_solve_ordered_is_deterministic() {
    let mut s1 = Sudoku::default();
    let mut s2 = Sudoku::default();
    assert!(s1.solve_ordered());
    assert!(s2.solve_ordered());
    assert_eq!(s1, s2);
}

#[test]
fn test_solve_randomized_completes_empty_grid() {
    let mut s = Sudoku::default();
    assert!(s.solve_randomized());
    assert_valid_complete(&s);
}

#[test]
fn test_solve_randomized_varies() {
    let mut boards = Vec::new();
    for _ in 0..4 {
        let mut s = Sudoku::default();
        assert!(s.solve_randomized());
        boards.push(s);
    }
    let all_equal = boards.iter().all(|b| *b == boards[0]);
    assert!(!all_equal, "independent randomized runs should differ");
}

#[test]
fn test_solve_keeps_given_clues() {
    let mut s = Sudoku::default();
    s.set(0, 0, 4);
    s.set(5, 7, 1);
    assert!(s.solve_ordered());
    assert_eq!(s.get(0, 0), 4);
    assert_eq!(s.get(5, 7), 1);
    assert_valid_complete(&s);
}

#[test]
fn test_sole_candidate_fixed_point_on_solved_grid() {
    let mut s = Sudoku::default();
    assert!(s.solve_ordered());
    let mut solver = SudokuHumanLikeSolver::from_sudoku(s);
    assert_eq!(solver.sole_candidate(), 0);
    assert_eq!(solver.s, s);
}

#[test]
fn test_sole_candidate_recovers_single_cleared_cell() {
    let mut s = Sudoku::default();
    assert!(s.solve_ordered());
    let full = s;
    let erased = s.get(4, 5);
    s.set(4, 5, 0);
    let mut solver = SudokuHumanLikeSolver::from_sudoku(s);
    assert_eq!(solver.sole_candidate(), 1);
    assert_eq!(solver.s.get(4, 5), erased);
    assert_eq!(solver.s, full);
}

#[test]
fn test_unique_candidate_places_digit_left_to_one_cell_of_a_row() {
    // Eight sevens, pairwise out of sight of one another, that between
    // them see the cells (0, 0) .. (0, 7) but not (0, 8).
    let sevens = [(1, 0), (2, 3), (3, 6), (4, 1), (5, 4), (6, 7), (7, 2), (8, 5)];
    let mut s = Sudoku::default();
    for &(x, y) in sevens.iter() {
        s.set(x, y, 7);
    }
    let mut solver = SudokuHumanLikeSolver::from_sudoku(s);
    assert_eq!(solver.sole_candidate(), 0);
    assert_eq!(solver.unique_candidate(), 1);
    assert_eq!(solver.s.get(0, 8), 7);
    // the committed cell's tracker is pinned to digit 7 alone
    for k in 0..9 {
        assert_eq!(solver.p.field[0][8][k], k == 6);
    }
}

#[test]
fn test_deduction_stubs_find_nothing() {
    let mut s = Sudoku::default();
    assert!(s.solve_ordered());
    s.set(0, 0, 0);
    let mut solver = SudokuHumanLikeSolver::from_sudoku(s);
    assert_eq!(solver.line_block_interaction(), 0);
    assert_eq!(solver.block_block_interaction(), 0);
    assert_eq!(solver.naked_subset(), 0);
    assert_eq!(solver.hidden_subset(), 0);
    assert_eq!(solver.x_wing(), 0);
    assert_eq!(solver.s, s);
}

#[test]
fn test_full_generates_recoverable_puzzle() {
    let (puzzle, hints) = Sudoku::full();
    assert!(hints >= 17 && hints <= 80);
    let mut filled = 0;
    for x in 0..9 {
        for y in 0..9 {
            if puzzle.get(x, y) != 0 {
                filled += 1;
            }
        }
    }
    assert_eq!(hints, filled);
    assert_no_conflicts(&puzzle);
    // the puzzle is recoverable by the two propagation rules alone
    let mut solver = SudokuHumanLikeSolver::from_sudoku(puzzle);
    loop {
        let mut found = solver.sole_candidate();
        found += solver.unique_candidate();
        if found == 0 {
            break;
        }
    }
    assert_valid_complete(&solver.s);
    // the recovered grid still shows every clue of the puzzle
    for x in 0..9 {
        for y in 0..9 {
            if puzzle.get(x, y) != 0 {
                assert_eq!(solver.s.get(x, y), puzzle.get(x, y));
            }
        }
    }
}

#[test]
fn test_shuffled_is_a_permutation() {
    let order = shuffled(81);
    assert_eq!(order.len(), 81);
    let mut seen = [false; 81];
    for &v in order.iter() {
        assert!(v < 81);
        assert!(!seen[v]);
        seen[v] = true;
    }
    let mut sorted = order.clone();
    sorted.sort();
    let expected: Vec<usize> = (0..81).collect();
    assert_eq!(sorted, expected);
}
