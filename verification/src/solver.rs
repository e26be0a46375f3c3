//! The exact backtracking solver: a depth-first search over the linear
//! cell indices, pruned by the candidate tracker.
//!
//! Success is proved to yield a complete grid that keeps every given
//! digit and adds no conflict to any unit; and whenever some full valid
//! grid extends the given one, the search is proved to find one.

use vstd::prelude::*;

use crate::board::{
    extends, grid_at, grid_complete, grid_wf, in_grid, lemma_pack_of_unpack, lemma_unpack_of_pack,
    no_conflicts, sees, unpack_index, valid_complete, Sudoku,
};
use crate::candidates::{eliminated, PossibleEntries};
use crate::ordering::{lemma_perm_contains, DigitOrdering, RandomOrdering, SequentialOrdering};

verus! {

/// The tracker keeps no candidate that a filled cell of `g` rules out.
pub open spec fn tracker_sound(g: Seq<u8>, p: PossibleEntries) -> bool {
    forall|a: int, b: int, k: int|
        in_grid(a, b) && 0 <= k < 9 && #[trigger] p.cand(a, b, k) ==> !eliminated(g, a, b, k)
}

/// On every blank cell of `g`, the tracker keeps the digit that `sol`
/// puts there.
pub open spec fn tracker_admits(g: Seq<u8>, p: PossibleEntries, sol: Seq<u8>) -> bool {
    forall|x: int, y: int|
        in_grid(x, y) && #[trigger] grid_at(g, x, y) == 0 ==> p.cand(
            x,
            y,
            grid_at(sol, x, y) - 1,
        )
}

/// `sol` is a full valid grid that the search, pruned by `p`, could
/// still reach from `g`.
pub open spec fn admissible_solution(g: Seq<u8>, p: PossibleEntries, sol: Seq<u8>) -> bool {
    valid_complete(sol) && extends(sol, g) && tracker_admits(g, p, sol)
}

/// Writing digit `v` into the blank cell (x, y) rules out exactly what it
/// ruled out before, plus digit `v` across the units of (x, y).
proof fn lemma_elim_after_set(g: Seq<u8>, g2: Seq<u8>, x: int, y: int, v: u8, a: int, b: int, k: int)
    requires
        in_grid(x, y),
        in_grid(a, b),
        0 <= k < 9,
        g.len() == 81,
        g2 == g.update(y * 9 + x, v),
        grid_at(g, x, y) == 0,
        1 <= v <= 9,
    ensures
        eliminated(g2, a, b, k) <==> (eliminated(g, a, b, k) || (k == v - 1 && sees(x, y, a, b))),
{
    lemma_pack_of_unpack(x, y);
    assert forall|x2: int, y2: int| in_grid(x2, y2) implies #[trigger] grid_at(g2, x2, y2) == (
    if x2 == x && y2 == y {
        v
    } else {
        grid_at(g, x2, y2)
    }) by {
        lemma_pack_of_unpack(x2, y2);
    }
    if eliminated(g2, a, b, k) {
        let (x2, y2) = choose|x2: int, y2: int|
            in_grid(x2, y2) && #[trigger] grid_at(g2, x2, y2) == k + 1 && #[trigger] sees(
                x2,
                y2,
                a,
                b,
            );
        if x2 == x && y2 == y {
            assert(k == v - 1 && sees(x, y, a, b));
        } else {
            assert(grid_at(g, x2, y2) == k + 1 && sees(x2, y2, a, b));
        }
    }
    if eliminated(g, a, b, k) {
        let (x2, y2) = choose|x2: int, y2: int|
            in_grid(x2, y2) && #[trigger] grid_at(g, x2, y2) == k + 1 && #[trigger] sees(
                x2,
                y2,
                a,
                b,
            );
        assert(grid_at(g2, x2, y2) == k + 1 && sees(x2, y2, a, b));
    }
    if k == v - 1 && sees(x, y, a, b) {
        assert(grid_at(g2, x, y) == k + 1 && sees(x, y, a, b));
    }
}

impl Sudoku {
    /// One step of the search at linear cell `index`: fills the cells
    /// from `index` on, first trial digit of each cell drawn from
    /// `ordering`, and reports whether it completed the grid.
    fn _solve<O: DigitOrdering>(
        &mut self,
        p: &PossibleEntries,
        ordering: &O,
        index: usize,
    ) -> (r: bool)
        requires
            index <= 81,
            grid_wf(old(self)@),
            tracker_sound(old(self)@, *p),
        ensures
            grid_wf(final(self)@),
            !r ==> final(self)@ == old(self)@,
            r ==> forall|c: int| index <= c < 81 ==> final(self)@[c] != 0,
            r ==> forall|c: int|
                0 <= c < 81 && #[trigger] old(self)@[c] != 0 ==> final(self)@[c] == old(self)@[c],
            r ==> forall|x1: int, y1: int, x2: int, y2: int|
                in_grid(x1, y1) && in_grid(x2, y2) && !(x1 == x2 && y1 == y2) && sees(
                    x1,
                    y1,
                    x2,
                    y2,
                ) && #[trigger] grid_at(final(self)@, x1, y1) != 0 && grid_at(final(self)@, x1, y1)
                    == #[trigger] grid_at(final(self)@, x2, y2) ==> grid_at(old(self)@, x1, y1)
                    != 0 && grid_at(old(self)@, x2, y2) != 0,
            (exists|sol: Seq<u8>| admissible_solution(old(self)@, *p, sol)) ==> r,
            (forall|c: int| index <= c < 81 ==> old(self)@[c] != 0) ==> r,
        decreases 81 - index,
    {
        if index == 81 {
            true
        } else {
            proof {
                lemma_unpack_of_pack(index as int);
            }
            let xy = unpack_index(index);
            let x = xy.0;
            let y = xy.1;
            let orig: u8 = self.get(x, y);
            let ghost g0 = self@;
            if orig != 0 {
                let r = self._solve(p, ordering, index + 1);
                proof {
                    if r {
                        assert(final(self)@[index as int] == g0[index as int]);
                    }
                }
                r
            } else if index == 80 {
                let ord = ordering.order();
                proof {
                    assert forall|sol: Seq<u8>| #[trigger]
                        admissible_solution(g0, *p, sol) implies exists|j2: int|
                        0 <= j2 < 9 && #[trigger] ord@[j2] + 1 == grid_at(sol, 8, 8) by {
                        lemma_pack_of_unpack(8, 8);
                        let d = grid_at(sol, 8, 8);
                        assert(1 <= d <= 9);
                        lemma_perm_contains(ord@, 9, (d - 1) as usize);
                        let j2 = choose|j2: int|
                            0 <= j2 < ord@.len() && #[trigger] ord@[j2] == (d - 1) as usize;
                        assert(ord@[j2] + 1 == d);
                    }
                }
                let mut j: usize = 0;
                while j < 9
                    invariant
                        j <= 9,
                        x == 8,
                        y == 8,
                        index == 80,
                        ord@.len() == 9,
                        forall|j2: int| 0 <= j2 < 9 ==> #[trigger] ord@[j2] < 9,
                        self@ == g0,
                        g0 == old(self)@,
                        grid_wf(g0),
                        grid_at(g0, 8, 8) == 0,
                        tracker_sound(g0, *p),
                        forall|sol: Seq<u8>| #[trigger]
                            admissible_solution(g0, *p, sol) ==> exists|j2: int|
                                j <= j2 < 9 && #[trigger] ord@[j2] + 1 == grid_at(sol, 8, 8),
                    decreases 9 - j,
                {
                    let i = ord[j];
                    if p.field[x][y][i] {
                        self.set(x, y, (i + 1) as u8);
                        proof {
                            assert(final(self)@ == g0.update(80, (i + 1) as u8));
                            assert forall|c: int| 80 <= c < 81 implies final(self)@[c] != 0 by {}
                            assert forall|x1: int, y1: int, x2: int, y2: int|
                                in_grid(x1, y1) && in_grid(x2, y2) && !(x1 == x2 && y1 == y2)
                                    && sees(x1, y1, x2, y2) && #[trigger] grid_at(
                                final(self)@,
                                x1,
                                y1,
                            ) != 0 && grid_at(final(self)@, x1, y1) == #[trigger] grid_at(
                                final(self)@,
                                x2,
                                y2,
                            ) implies grid_at(g0, x1, y1) != 0 && grid_at(g0, x2, y2) != 0 by {
                                lemma_pack_of_unpack(x1, y1);
                                lemma_pack_of_unpack(x2, y2);
                                if x1 == 8 && y1 == 8 {
                                    assert(grid_at(g0, x2, y2) == i + 1 && sees(x2, y2, 8, 8));
                                    assert(eliminated(g0, 8, 8, i as int));
                                    assert(p.cand(8, 8, i as int));
                                    assert(false);
                                } else if x2 == 8 && y2 == 8 {
                                    assert(grid_at(g0, x1, y1) == i + 1 && sees(x1, y1, 8, 8));
                                    assert(eliminated(g0, 8, 8, i as int));
                                    assert(p.cand(8, 8, i as int));
                                    assert(false);
                                }
                            }
                        }
                        return true;
                    }
                    proof {
                        assert forall|sol: Seq<u8>| #[trigger]
                            admissible_solution(g0, *p, sol) implies exists|j2: int|
                            j + 1 <= j2 < 9 && #[trigger] ord@[j2] + 1 == grid_at(sol, 8, 8) by {
                            let j2 = choose|j2: int|
                                j <= j2 < 9 && #[trigger] ord@[j2] + 1 == grid_at(sol, 8, 8);
                            if j2 == j {
                                assert(p.cand(8, 8, grid_at(sol, 8, 8) - 1));
                                assert(false);
                            }
                        }
                    }
                    j += 1;
                }
                proof {
                    if exists|sol: Seq<u8>| admissible_solution(g0, *p, sol) {
                        let sol = choose|sol: Seq<u8>| admissible_solution(g0, *p, sol);
                        assert(admissible_solution(g0, *p, sol));
                        assert(false);
                    }
                }
                false
            } else {
                let ord = ordering.order();
                proof {
                    assert forall|sol: Seq<u8>| #[trigger]
                        admissible_solution(g0, *p, sol) implies exists|j2: int|
                        0 <= j2 < 9 && #[trigger] ord@[j2] + 1 == grid_at(sol, x as int, y as int) by {
                        lemma_pack_of_unpack(x as int, y as int);
                        let d = grid_at(sol, x as int, y as int);
                        assert(1 <= d <= 9);
                        lemma_perm_contains(ord@, 9, (d - 1) as usize);
                        let j2 = choose|j2: int|
                            0 <= j2 < ord@.len() && #[trigger] ord@[j2] == (d - 1) as usize;
                        assert(ord@[j2] + 1 == d);
                    }
                }
                let mut j: usize = 0;
                while j < 9
                    invariant
                        j <= 9,
                        index < 80,
                        x == index % 9,
                        y == index / 9,
                        in_grid(x as int, y as int),
                        index == y * 9 + x,
                        ord@.len() == 9,
                        forall|j2: int| 0 <= j2 < 9 ==> #[trigger] ord@[j2] < 9,
                        self@.len() == 81,
                        grid_wf(self@),
                        forall|c: int| 0 <= c < 81 && c != index ==> self@[c] == g0[c],
                        g0 == old(self)@,
                        grid_wf(g0),
                        grid_at(g0, x as int, y as int) == 0,
                        tracker_sound(g0, *p),
                        forall|sol: Seq<u8>| #[trigger]
                            admissible_solution(g0, *p, sol) ==> exists|j2: int|
                                j <= j2 < 9 && #[trigger] ord@[j2] + 1 == grid_at(
                                    sol,
                                    x as int,
                                    y as int,
                                ),
                    decreases 9 - j,
                {
                    let i = ord[j];
                    if p.field[x][y][i] {
                        let mut p2 = p.clone();
                        self.set(x, y, (i + 1) as u8);
                        p2.update_line((i + 1) as u8, x, y);
                        p2.update_block((i + 1) as u8, x, y);
                        let ghost g1 = self@;
                        proof {
                            assert(g1 == g0.update(index as int, (i + 1) as u8));
                            assert(grid_at(g1, x as int, y as int) == i + 1);
                            assert forall|a: int, b: int, k: int|
                                in_grid(a, b) && 0 <= k < 9 implies #[trigger] p2.cand(a, b, k) == (
                            p.cand(a, b, k) && !(k == i && sees(x as int, y as int, a, b))) by {}
                            assert forall|a: int, b: int, k: int|
                                in_grid(a, b) && 0 <= k < 9 && #[trigger] p2.cand(a, b, k) implies
                                !eliminated(g1, a, b, k) by {
                                lemma_elim_after_set(
                                    g0,
                                    g1,
                                    x as int,
                                    y as int,
                                    (i + 1) as u8,
                                    a,
                                    b,
                                    k,
                                );
                            }
                        }
                        if self._solve(&p2, ordering, index + 1) {
                            proof {
                                assert(final(self)@[index as int] == g1[index as int]);
                                assert forall|c: int| index <= c < 81 implies final(self)@[c]
                                    != 0 by {}
                                assert forall|c: int|
                                    0 <= c < 81 && #[trigger] g0[c] != 0 implies final(self)@[c]
                                    == g0[c] by {
                                    assert(g1[c] == g0[c]);
                                }
                                assert forall|x1: int, y1: int, x2: int, y2: int|
                                    in_grid(x1, y1) && in_grid(x2, y2) && !(x1 == x2 && y1 == y2)
                                        && sees(x1, y1, x2, y2) && #[trigger] grid_at(
                                    final(self)@,
                                    x1,
                                    y1,
                                ) != 0 && grid_at(final(self)@, x1, y1) == #[trigger] grid_at(
                                    final(self)@,
                                    x2,
                                    y2,
                                ) implies grid_at(g0, x1, y1) != 0 && grid_at(g0, x2, y2)
                                    != 0 by {
                                    lemma_pack_of_unpack(x1, y1);
                                    lemma_pack_of_unpack(x2, y2);
                                    assert(grid_at(g1, x1, y1) != 0 && grid_at(g1, x2, y2) != 0);
                                    assert(grid_at(final(self)@, x1, y1) == grid_at(g1, x1, y1));
                                    assert(grid_at(final(self)@, x2, y2) == grid_at(g1, x2, y2));
                                    if x1 == x && y1 == y {
                                        assert(grid_at(g0, x2, y2) == grid_at(g1, x2, y2));
                                        assert(grid_at(g0, x2, y2) == i + 1);
                                        assert(sees(x2, y2, x as int, y as int));
                                        assert(eliminated(g0, x as int, y as int, i as int));
                                        assert(p.cand(x as int, y as int, i as int));
                                        assert(false);
                                    } else if x2 == x && y2 == y {
                                        assert(grid_at(g0, x1, y1) == grid_at(g1, x1, y1));
                                        assert(grid_at(g0, x1, y1) == i + 1);
                                        assert(sees(x1, y1, x as int, y as int));
                                        assert(eliminated(g0, x as int, y as int, i as int));
                                        assert(p.cand(x as int, y as int, i as int));
                                        assert(false);
                                    } else {
                                        assert(grid_at(g0, x1, y1) == grid_at(g1, x1, y1));
                                        assert(grid_at(g0, x2, y2) == grid_at(g1, x2, y2));
                                    }
                                }
                            }
                            return true;
                        }
                        proof {
                            assert(self@ == g1);
                            assert forall|sol: Seq<u8>| #[trigger]
                                admissible_solution(g0, *p, sol) implies exists|j2: int|
                                j + 1 <= j2 < 9 && #[trigger] ord@[j2] + 1 == grid_at(
                                    sol,
                                    x as int,
                                    y as int,
                                ) by {
                                let j2 = choose|j2: int|
                                    j <= j2 < 9 && #[trigger] ord@[j2] + 1 == grid_at(
                                        sol,
                                        x as int,
                                        y as int,
                                    );
                                if j2 == j {
                                    // sol puts i + 1 at (x, y); show it would still be
                                    // admissible after the trial, contradicting the
                                    // failed recursive call.
                                    assert(grid_at(sol, x as int, y as int) == i + 1);
                                    assert(extends(sol, g1)) by {
                                        lemma_pack_of_unpack(x as int, y as int);
                                        assert forall|c: int|
                                            0 <= c < 81 && #[trigger] g1[c] != 0 implies sol[c]
                                            == g1[c] by {
                                            if c != index {
                                                assert(g1[c] == g0[c]);
                                            } else {
                                                lemma_unpack_of_pack(c);
                                            }
                                        }
                                    }
                                    assert(tracker_admits(g1, p2, sol)) by {
                                        assert forall|a: int, b: int|
                                            in_grid(a, b) && #[trigger] grid_at(g1, a, b)
                                                == 0 implies p2.cand(
                                            a,
                                            b,
                                            grid_at(sol, a, b) - 1,
                                        ) by {
                                            lemma_pack_of_unpack(a, b);
                                            assert(grid_at(g0, a, b) == 0);
                                            assert(p.cand(a, b, grid_at(sol, a, b) - 1));
                                            if grid_at(sol, a, b) - 1 == i && sees(
                                                x as int,
                                                y as int,
                                                a,
                                                b,
                                            ) {
                                                // two cells of one unit would both hold
                                                // i + 1 in sol
                                                assert(grid_at(sol, x as int, y as int) == grid_at(
                                                    sol,
                                                    a,
                                                    b,
                                                ));
                                                assert(!(a == x && b == y));
                                                assert(false);
                                            }
                                        }
                                    }
                                    assert(admissible_solution(g1, p2, sol));
                                    assert(false);
                                }
                            }
                        }
                    } else {
                        proof {
                            assert forall|sol: Seq<u8>| #[trigger]
                                admissible_solution(g0, *p, sol) implies exists|j2: int|
                                j + 1 <= j2 < 9 && #[trigger] ord@[j2] + 1 == grid_at(
                                    sol,
                                    x as int,
                                    y as int,
                                ) by {
                                let j2 = choose|j2: int|
                                    j <= j2 < 9 && #[trigger] ord@[j2] + 1 == grid_at(
                                        sol,
                                        x as int,
                                        y as int,
                                    );
                                if j2 == j {
                                    assert(p.cand(
                                        x as int,
                                        y as int,
                                        grid_at(sol, x as int, y as int) - 1,
                                    ));
                                    assert(false);
                                }
                            }
                        }
                    }
                    j += 1;
                }
                self.set(x, y, orig);
                proof {
                    assert(final(self)@ =~= g0);
                    if exists|sol: Seq<u8>| admissible_solution(g0, *p, sol) {
                        let sol = choose|sol: Seq<u8>| admissible_solution(g0, *p, sol);
                        assert(admissible_solution(g0, *p, sol));
                        assert(false);
                    }
                }
                false
            }
        }
    }

    /// Solves the grid in place: builds a fresh tracker from the given
    /// digits and runs the search with the given digit ordering. On
    /// success the grid is complete, keeps every given digit, and has no
    /// conflict that the given digits did not already have; and whenever
    /// some full valid grid extends the given one, the search succeeds.
    pub fn solve<O: DigitOrdering>(&mut self, ordering: &O) -> (r: bool)
        requires
            grid_wf(old(self)@),
        ensures
            grid_wf(final(self)@),
            !r ==> final(self)@ == old(self)@,
            r ==> grid_complete(final(self)@),
            r ==> forall|c: int|
                0 <= c < 81 && #[trigger] old(self)@[c] != 0 ==> final(self)@[c] == old(self)@[c],
            r && no_conflicts(old(self)@) ==> valid_complete(final(self)@),
            (exists|sol: Seq<u8>| valid_complete(sol) && extends(sol, old(self)@)) ==> r,
            grid_complete(old(self)@) ==> r,
    {
        let ghost g0 = self@;
        let mut p = PossibleEntries::default();
        p.update_field(self);
        proof {
            assert(tracker_sound(g0, p));
            assert forall|sol: Seq<u8>|
                valid_complete(sol) && extends(sol, g0) implies #[trigger] admissible_solution(
                g0,
                p,
                sol,
            ) by {
                assert forall|x: int, y: int|
                    in_grid(x, y) && #[trigger] grid_at(g0, x, y) == 0 implies p.cand(
                    x,
                    y,
                    grid_at(sol, x, y) - 1,
                ) by {
                    lemma_pack_of_unpack(x, y);
                    let k = grid_at(sol, x, y) - 1;
                    if eliminated(g0, x, y, k) {
                        let (x2, y2) = choose|x2: int, y2: int|
                            in_grid(x2, y2) && #[trigger] grid_at(g0, x2, y2) == k + 1
                                && #[trigger] sees(x2, y2, x, y);
                        lemma_pack_of_unpack(x2, y2);
                        // that filled cell keeps its digit in sol, which then
                        // repeats sol's digit at (x, y) inside one unit
                        assert(grid_at(sol, x2, y2) == k + 1);
                        assert(!(x2 == x && y2 == y));
                        assert(false);
                    }
                }
            }
            if exists|sol: Seq<u8>| valid_complete(sol) && extends(sol, g0) {
                let sol = choose|sol: Seq<u8>| valid_complete(sol) && extends(sol, g0);
                assert(admissible_solution(g0, p, sol));
            }
        }
        let r = self._solve(&p, ordering, 0);
        proof {
            if r && no_conflicts(g0) {
                assert forall|x1: int, y1: int, x2: int, y2: int|
                    in_grid(x1, y1) && in_grid(x2, y2) && !(x1 == x2 && y1 == y2) && sees(
                        x1,
                        y1,
                        x2,
                        y2,
                    ) && #[trigger] grid_at(final(self)@, x1, y1) != 0 implies grid_at(
                    final(self)@,
                    x1,
                    y1,
                ) != #[trigger] grid_at(final(self)@, x2, y2) by {
                    lemma_pack_of_unpack(x1, y1);
                    lemma_pack_of_unpack(x2, y2);
                    if grid_at(final(self)@, x1, y1) == grid_at(final(self)@, x2, y2) {
                        assert(grid_at(g0, x1, y1) != 0 && grid_at(g0, x2, y2) != 0);
                        assert(grid_at(final(self)@, x1, y1) == grid_at(g0, x1, y1));
                        assert(grid_at(final(self)@, x2, y2) == grid_at(g0, x2, y2));
                        assert(false);
                    }
                }
            }
            if r {
                assert forall|c: int| 0 <= c < 81 implies final(self)@[c] != 0 by {}
            }
        }
        r
    }

    /// Solves with digits tried in increasing order: a deterministic
    /// search.
    pub fn solve_ordered(&mut self) -> (r: bool)
        requires
            grid_wf(old(self)@),
        ensures
            grid_wf(final(self)@),
            !r ==> final(self)@ == old(self)@,
            r ==> grid_complete(final(self)@),
            r ==> forall|c: int|
                0 <= c < 81 && #[trigger] old(self)@[c] != 0 ==> final(self)@[c] == old(self)@[c],
            r && no_conflicts(old(self)@) ==> valid_complete(final(self)@),
            (exists|sol: Seq<u8>| valid_complete(sol) && extends(sol, old(self)@)) ==> r,
            grid_complete(old(self)@) ==> r,
    {
        self.solve(&SequentialOrdering)
    }

    /// Solves with a fresh random digit order at every recursive step:
    /// used to draw varied full grids.
    pub fn solve_randomized(&mut self) -> (r: bool)
        requires
            grid_wf(old(self)@),
        ensures
            grid_wf(final(self)@),
            !r ==> final(self)@ == old(self)@,
            r ==> grid_complete(final(self)@),
            r ==> forall|c: int|
                0 <= c < 81 && #[trigger] old(self)@[c] != 0 ==> final(self)@[c] == old(self)@[c],
            r && no_conflicts(old(self)@) ==> valid_complete(final(self)@),
            (exists|sol: Seq<u8>| valid_complete(sol) && extends(sol, old(self)@)) ==> r,
            grid_complete(old(self)@) ==> r,
    {
        self.solve(&RandomOrdering)
    }
}

} // verus!
