//! The puzzle generator: builds a random full grid with the backtracking
//! solver, then walks the cells in random order, erasing each digit that
//! the two-rule propagation solver can still recover.

use vstd::prelude::*;

use crate::board::{
    extends, filled_count, grid_at, grid_wf, in_grid, lemma_filled_bounds, lemma_filled_complete,
    lemma_filled_of_diff, lemma_filled_update, lemma_pack_of_unpack, lemma_unpack_of_pack,
    no_conflicts, sees, unpack_index, valid_complete, Sudoku,
};
use crate::board::{lemma_diff_pos_witness, lemma_diff_zero_eq, lemma_filled_full,
    lemma_line_contains_all};
use crate::candidates::eliminated;
use crate::human::{first_round_progress, some_unique_blank, start_refreshed, SudokuHumanLikeSolver};
use crate::ordering::{lemma_perm_no_duplicates, shuffled};

verus! {

/// The digit of the classic shifted pattern at cell (x, y).
spec fn pattern_cell(x: int, y: int) -> u8 {
    ((3 * (x % 3) + x / 3 + y) % 9 + 1) as u8
}

/// A fixed full grid following the shifted pattern.
spec fn pattern_grid() -> Seq<u8> {
    Seq::new(81, |c: int| pattern_cell(c % 9, c / 9))
}

/// Two nonnegative numbers less than 9 apart with equal remainders mod 9
/// are equal.
proof fn lemma_same_mod_close(e1: int, e2: int)
    requires
        e1 % 9 == e2 % 9,
        -9 < e1 - e2 < 9,
        e1 >= 0,
        e2 >= 0,
    ensures
        e1 == e2,
{
    assert(e1 == 9 * (e1 / 9) + e1 % 9);
    assert(e2 == 9 * (e2 / 9) + e2 % 9);
}

/// Law: some fully solved valid grid exists (so the search from an empty
/// grid always has something to find).
pub proof fn lemma_full_grid_exists()
    ensures
        exists|sol: Seq<u8>| #[trigger] valid_complete(sol),
{
    let g = pattern_grid();
    assert forall|x1: int, y1: int, x2: int, y2: int|
        in_grid(x1, y1) && in_grid(x2, y2) && !(x1 == x2 && y1 == y2) && sees(x1, y1, x2, y2)
            && #[trigger] grid_at(g, x1, y1) != 0 implies grid_at(g, x1, y1) != #[trigger] grid_at(
        g,
        x2,
        y2,
    ) by {
        lemma_pack_of_unpack(x1, y1);
        lemma_pack_of_unpack(x2, y2);
        assert(grid_at(g, x1, y1) == pattern_cell(x1, y1));
        assert(grid_at(g, x2, y2) == pattern_cell(x2, y2));
        if grid_at(g, x1, y1) == grid_at(g, x2, y2) {
            let e1 = 3 * (x1 % 3) + x1 / 3 + y1;
            let e2 = 3 * (x2 % 3) + x2 / 3 + y2;
            assert(e1 % 9 == e2 % 9);
            if x1 == x2 {
                lemma_same_mod_close(e1, e2);
                assert(false);
            } else if y1 == y2 {
                lemma_same_mod_close(e1, e2);
                assert(x1 == 3 * (x1 / 3) + x1 % 3);
                assert(x2 == 3 * (x2 / 3) + x2 % 3);
                assert(false);
            } else {
                assert(x1 / 3 == x2 / 3 && y1 / 3 == y2 / 3);
                assert(y1 == 3 * (y1 / 3) + y1 % 3);
                assert(y2 == 3 * (y2 / 3) + y2 % 3);
                lemma_same_mod_close(e1, e2);
                assert(3 * (x1 % 3) + y1 % 3 == 3 * (x2 % 3) + y2 % 3);
                assert(x1 % 3 == x2 % 3 && y1 % 3 == y2 % 3);
                assert(x1 == 3 * (x1 / 3) + x1 % 3);
                assert(x2 == 3 * (x2 / 3) + x2 % 3);
                assert(false);
            }
        }
    }
    assert forall|c: int| 0 <= c < 81 implies #[trigger] g[c] >= 1 && g[c] <= 9 by {
        lemma_unpack_of_pack(c);
    }
    assert(valid_complete(g));
}

impl Sudoku {
    /// Generates a puzzle: a random full valid grid with every digit
    /// erased whose loss the two-rule propagation solver can still make
    /// up for, together with the number of remaining hints. The puzzle
    /// always extends to some fully solved valid grid, and the hint
    /// count is exactly the number of digits it still shows.
    pub fn full() -> (r: (Sudoku, usize))
        ensures
            grid_wf(r.0@),
            no_conflicts(r.0@),
            exists|sol: Seq<u8>| #[trigger] valid_complete(sol) && extends(sol, r.0@),
            r.1 == filled_count(r.0@),
            r.1 <= 80,
            first_round_progress(r.0@),
    {
        let mut result = Sudoku::default();
        let ghost g_init = result@;
        let solved = result.solve_randomized();
        proof {
            lemma_full_grid_exists();
            let w = choose|sol: Seq<u8>| valid_complete(sol);
            assert(extends(w, g_init));
            assert(exists|sol: Seq<u8>| valid_complete(sol) && extends(sol, g_init));
            assert(solved);
            assert forall|x1: int, y1: int, x2: int, y2: int|
                in_grid(x1, y1) && in_grid(x2, y2) && !(x1 == x2 && y1 == y2) && sees(
                    x1,
                    y1,
                    x2,
                    y2,
                ) && #[trigger] grid_at(g_init, x1, y1) != 0 implies grid_at(g_init, x1, y1)
                != #[trigger] grid_at(g_init, x2, y2) by {
                lemma_pack_of_unpack(x1, y1);
            }
            assert(no_conflicts(g_init));
        }
        let ghost sol0 = result@;
        proof {
            assert(valid_complete(sol0));
            lemma_filled_complete(sol0, 81);
        }
        let order = shuffled(81);
        proof {
            lemma_perm_no_duplicates(order@, 81);
        }
        let mut num_erased: usize = 0;
        let mut ci: usize = 0;
        while ci < 81
            invariant
                ci <= 81,
                order@.len() == 81,
                forall|j: int| 0 <= j < 81 ==> #[trigger] order@[j] < 81,
                order@.no_duplicates(),
                grid_wf(result@),
                result@.len() == 81,
                valid_complete(sol0),
                extends(sol0, result@),
                num_erased <= ci,
                filled_count(result@) + num_erased == 81,
                forall|j: int| ci <= j < 81 ==> result@[#[trigger] order@[j] as int] != 0,
                ci >= 1 ==> num_erased >= 1,
                num_erased >= 1 ==> first_round_progress(result@),
            decreases 81 - ci,
        {
            let c = order[ci];
            proof {
                lemma_unpack_of_pack(c as int);
            }
            let xy = unpack_index(c);
            let x = xy.0;
            let y = xy.1;
            let original_num = result.get(x, y);
            let ghost hole = c as int;
            proof {
                assert(result@[order@[ci as int] as int] != 0);
                assert(original_num == result@[c as int]);
                if ci == 0 {
                    lemma_filled_full(result@, 81);
                    assert forall|cc: int| 0 <= cc < 81 implies result@[cc] == sol0[cc] by {
                        assert(result@[cc] != 0);
                    }
                    assert(result@ =~= sol0);
                }
            }
            num_erased += 1;
            let ghost before_erase = result@;
            result.set(x, y, 0);
            proof {
                lemma_filled_update(before_erase, c as int, 0, 81);
                assert forall|cc: int|
                    0 <= cc < 81 && #[trigger] result@[cc] != 0 implies sol0[cc]
                    == result@[cc] by {
                    assert(result@[cc] == before_erase[cc]);
                }
            }
            let mut solver = SudokuHumanLikeSolver::from_sudoku(result);
            let ghost base = result@;
            let mut num_found: i32 = 0;
            proof {
                assert(solver.s@ == base);
                lemma_filled_bounds(base, 81);
            }
            loop
                invariant_except_break
                    num_found == 0 ==> solver.s@ == base && (forall|x2: int, y2: int, k: int|
                        in_grid(x2, y2) && 0 <= k < 9 ==> #[trigger] solver.p.cand(x2, y2, k) == (
                        grid_at(base, x2, y2) == 0 || k == grid_at(base, x2, y2) - 1)),
                invariant
                    grid_wf(solver.s@),
                    solver.s@.len() == 81,
                    grid_wf(base),
                    base.len() == 81,
                    num_found == filled_count(solver.s@) - filled_count(base),
                    num_found >= 0,
                    filled_count(solver.s@) <= 81,
                    0 <= filled_count(base),
                    num_found >= 1 ==> first_round_progress(base),
                    valid_complete(sol0),
                    0 <= hole < 81,
                    ci == 0 ==> base == sol0.update(hole, 0) && num_erased == 1,
                ensures
                    ci == 0 ==> num_found >= 1,
                    num_found >= 1 ==> first_round_progress(base),
                    num_found == filled_count(solver.s@) - filled_count(base),
                decreases 81 - filled_count(solver.s@),
            {
                let ghost s0 = solver.s@;
                let ghost nf0 = num_found;
                let found1 = solver.sole_candidate();
                let ghost s1 = solver.s@;
                let ghost q1 = solver.p;
                let found2 = solver.unique_candidate();
                let ghost s2 = solver.s@;
                proof {
                    lemma_filled_of_diff(s0, s1, 81);
                    lemma_filled_of_diff(s1, s2, 81);
                    lemma_filled_bounds(s2, 81);
                    if nf0 == 0 {
                        assert(start_refreshed(q1, base));
                        if found1 > 0 {
                            lemma_diff_pos_witness(s0, s1, 81);
                            let cw = choose|cw: int| 0 <= cw < 81 && s0[cw] != #[trigger] s1[cw];
                            lemma_unpack_of_pack(cw);
                            assert(grid_at(s1, cw % 9, cw / 9) != grid_at(s0, cw % 9, cw / 9));
                            assert(grid_at(base, cw % 9, cw / 9) == 0 && q1.cand_count(
                                cw % 9,
                                cw / 9,
                            ) == 1);
                            assert(first_round_progress(base));
                        } else if found2 > 0 {
                            lemma_diff_zero_eq(s0, s1, 81);
                            assert(s1 =~= s0);
                            assert(some_unique_blank(q1, base));
                            assert(first_round_progress(base));
                        } else {
                            if ci == 0 {
                                let hx = hole % 9;
                                let hy = hole / 9;
                                lemma_unpack_of_pack(hole);
                                let d0 = grid_at(sol0, hx, hy);
                                assert(1 <= d0 <= 9);
                                assert(grid_at(base, hx, hy) == 0);
                                assert forall|k: int|
                                    0 <= k < 9 && k != d0 - 1 implies !q1.cand(hx, hy, k) by {
                                    lemma_line_contains_all(sol0, hx, (k + 1) as u8);
                                    let yy = choose|yy: int|
                                        0 <= yy < 9 && grid_at(sol0, hx, yy) == k + 1;
                                    lemma_pack_of_unpack(hx, yy);
                                    assert(yy != hy);
                                    assert(grid_at(base, hx, yy) == k + 1);
                                    assert(sees(hx, yy, hx, hy));
                                    assert(eliminated(base, hx, hy, k));
                                }
                                assert(q1.cand(hx, hy, d0 - 1)) by {
                                    if eliminated(base, hx, hy, d0 - 1) {
                                        let (wx, wy) = choose|wx: int, wy: int|
                                            in_grid(wx, wy) && #[trigger] grid_at(base, wx, wy)
                                                == d0 && #[trigger] sees(wx, wy, hx, hy);
                                        lemma_pack_of_unpack(wx, wy);
                                        assert(!(wx == hx && wy == hy));
                                        assert(grid_at(sol0, wx, wy) == d0);
                                        assert(false);
                                    }
                                }
                                q1.lemma_count_singleton(hx, hy, (d0 - 1) as int);
                                q1.lemma_sole_exists(hx, hy);
                                assert(grid_at(s1, hx, hy) == q1.sole_digit(hx, hy));
                                lemma_diff_zero_eq(s0, s1, 81);
                                assert(grid_at(s1, hx, hy) == grid_at(s0, hx, hy));
                                assert(false);
                            }
                        }
                    }
                }
                let new_cells_found = found1 + found2;
                if new_cells_found == 0 {
                    break ;
                } else {
                    num_found += new_cells_found;
                }
            }
            proof {
                if ci == 0 {
                    assert(filled_count(base) == 80);
                    assert(num_found <= 1);
                    assert(num_found >= 1);
                    assert(num_found == 1);
                }
            }
            let ghost kept = num_found == num_erased as i32;
            if num_found != num_erased as i32 {
                num_erased -= 1;
                let ghost before_restore = result@;
                result.set(x, y, original_num);
                proof {
                    lemma_filled_update(before_restore, c as int, original_num, 81);
                    assert(before_restore[c as int] == 0);
                    assert(sol0[c as int] == original_num);
                    assert forall|cc: int|
                        0 <= cc < 81 && #[trigger] result@[cc] != 0 implies sol0[cc]
                        == result@[cc] by {
                        if cc != c as int {
                            assert(result@[cc] == before_restore[cc]);
                        }
                    }
                }
            }
            proof {
                assert forall|j: int|
                    ci + 1 <= j < 81 implies result@[#[trigger] order@[j] as int] != 0 by {
                    assert(order@[j] != order@[ci as int]);
                    assert(result@[order@[j] as int] == before_erase[order@[j] as int]);
                }
                if kept {
                    assert(num_erased >= 1);
                    assert(num_found >= 1);
                    assert(first_round_progress(base));
                    assert(result@ == base);
                } else {
                    assert(result@ == before_erase);
                }
            }
            ci += 1;
        }
        let hints = 81 - num_erased;
        proof {
            assert(num_erased >= 1);
            assert(first_round_progress(result@));
            assert(valid_complete(sol0) && extends(sol0, result@));
            assert forall|x1: int, y1: int, x2: int, y2: int|
                in_grid(x1, y1) && in_grid(x2, y2) && !(x1 == x2 && y1 == y2) && sees(
                    x1,
                    y1,
                    x2,
                    y2,
                ) && #[trigger] grid_at(result@, x1, y1) != 0 implies grid_at(result@, x1, y1)
                != #[trigger] grid_at(result@, x2, y2) by {
                lemma_pack_of_unpack(x1, y1);
                lemma_pack_of_unpack(x2, y2);
                if grid_at(result@, x1, y1) == grid_at(result@, x2, y2) {
                    assert(grid_at(sol0, x1, y1) == grid_at(result@, x1, y1));
                    assert(grid_at(sol0, x2, y2) == grid_at(result@, x2, y2));
                    assert(false);
                }
            }
        }
        (result, hints)
    }
}

} // verus!
