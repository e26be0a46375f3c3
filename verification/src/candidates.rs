//! The candidate tracker: for every cell, which digits are still possible.
//!
//! `field[x][y][i]` says whether digit `i + 1` is still a candidate for
//! cell (x, y). Elimination clears candidate bits across a cell's units;
//! pinning collapses a cell to a single known digit.

use vstd::prelude::*;

use crate::board::{grid_at, grid_wf, in_grid, same_block, sees, Sudoku};

verus! {

broadcast use vstd::array::group_array_axioms;

/// Digit `k + 1` is ruled out for cell (a, b) by some filled cell of `g`
/// sharing a unit with it.
pub open spec fn eliminated(g: Seq<u8>, a: int, b: int, k: int) -> bool {
    exists|x: int, y: int|
        in_grid(x, y) && #[trigger] grid_at(g, x, y) == k + 1 && #[trigger] sees(x, y, a, b)
}

/// As `eliminated`, but only by the cells (x, y) with x * 9 + y < n: the
/// part of the grid a sweep in x-major order has already worked through.
pub open spec fn eliminated_upto(g: Seq<u8>, a: int, b: int, k: int, n: int) -> bool {
    exists|x: int, y: int|
        in_grid(x, y) && x * 9 + y < n && #[trigger] grid_at(g, x, y) == k + 1
            && #[trigger] sees(x, y, a, b)
}

proof fn lemma_elim_upto_step(g: Seq<u8>, a: int, b: int, k: int, n: int)
    requires
        0 <= n < 81,
    ensures
        eliminated_upto(g, a, b, k, n + 1) <==> (eliminated_upto(g, a, b, k, n) || (grid_at(
            g,
            n / 9,
            n % 9,
        ) == k + 1 && sees(n / 9, n % 9, a, b))),
{
    if eliminated_upto(g, a, b, k, n + 1) {
        let (x, y) = choose|x: int, y: int|
            in_grid(x, y) && x * 9 + y < n + 1 && #[trigger] grid_at(g, x, y) == k + 1
                && #[trigger] sees(x, y, a, b);
        if x * 9 + y == n {
            assert(n / 9 == x && n % 9 == y);
        }
    }
    if grid_at(g, n / 9, n % 9) == k + 1 && sees(n / 9, n % 9, a, b) {
        assert(in_grid(n / 9, n % 9) && (n / 9) * 9 + n % 9 < n + 1);
    }
}

proof fn lemma_elim_upto_full(g: Seq<u8>, a: int, b: int, k: int)
    ensures
        eliminated_upto(g, a, b, k, 81) <==> eliminated(g, a, b, k),
{
    if eliminated_upto(g, a, b, k, 81) {
        let (x, y) = choose|x: int, y: int|
            in_grid(x, y) && x * 9 + y < 81 && #[trigger] grid_at(g, x, y) == k + 1
                && #[trigger] sees(x, y, a, b);
        assert(in_grid(x, y) && grid_at(g, x, y) == k + 1 && sees(x, y, a, b));
    }
    if eliminated(g, a, b, k) {
        let (x, y) = choose|x: int, y: int|
            in_grid(x, y) && #[trigger] grid_at(g, x, y) == k + 1 && #[trigger] sees(x, y, a, b);
        assert(in_grid(x, y) && x * 9 + y < 81 && grid_at(g, x, y) == k + 1 && sees(x, y, a, b));
    }
}

/// Per-cell candidate sets for the whole grid.
#[derive(Debug, Copy, Clone, Eq, PartialEq)]
pub struct PossibleEntries {
    pub field: [[[bool; 9]; 9]; 9],
}

impl Default for PossibleEntries {
    /// A fresh tracker: every digit is still a candidate everywhere.
    fn default() -> (r: Self)
        ensures
            forall|a: int, b: int, k: int|
                in_grid(a, b) && 0 <= k < 9 ==> #[trigger] r.cand(a, b, k),
    {
        PossibleEntries { field: [[[true; 9]; 9]; 9] }
    }
}

impl PossibleEntries {
    /// Digit `k + 1` is still a candidate for cell (x, y).
    pub open spec fn cand(self, x: int, y: int, k: int) -> bool {
        self.field[x][y][k]
    }

    /// How many of the first `n` digits are still candidates for (x, y).
    pub open spec fn cand_count_upto(self, x: int, y: int, n: int) -> int
        decreases n,
    {
        if n <= 0 {
            0
        } else {
            self.cand_count_upto(x, y, n - 1) + if self.cand(x, y, n - 1) {
                1int
            } else {
                0int
            }
        }
    }

    /// How many digits are still candidates for cell (x, y).
    pub open spec fn cand_count(self, x: int, y: int) -> int {
        self.cand_count_upto(x, y, 9)
    }

    proof fn lemma_count_nonneg(self, x: int, y: int, n: int)
        ensures
            self.cand_count_upto(x, y, n) >= 0,
        decreases n,
    {
        if n > 0 {
            self.lemma_count_nonneg(x, y, n - 1);
        }
    }

    proof fn lemma_count_zero(self, x: int, y: int, n: int)
        requires
            forall|k: int| 0 <= k < n ==> !#[trigger] self.cand(x, y, k),
        ensures
            self.cand_count_upto(x, y, n) == 0,
        decreases n,
    {
        if n > 0 {
            self.lemma_count_zero(x, y, n - 1);
        }
    }

    proof fn lemma_count_ge_one(self, x: int, y: int, k: int, n: int)
        requires
            0 <= k < n <= 9,
            self.cand(x, y, k),
        ensures
            self.cand_count_upto(x, y, n) >= 1,
        decreases n,
    {
        if k < n - 1 {
            self.lemma_count_ge_one(x, y, k, n - 1);
        } else {
            self.lemma_count_nonneg(x, y, n - 1);
        }
    }

    proof fn lemma_count_ge_two(self, x: int, y: int, k1: int, k2: int, n: int)
        requires
            0 <= k1 < k2 < n <= 9,
            self.cand(x, y, k1),
            self.cand(x, y, k2),
        ensures
            self.cand_count_upto(x, y, n) >= 2,
        decreases n,
    {
        if k2 == n - 1 {
            self.lemma_count_ge_one(x, y, k1, n - 1);
        } else {
            self.lemma_count_ge_two(x, y, k1, k2, n - 1);
        }
    }

    /// The digit of some remaining candidate of cell (x, y), as stored:
    /// meaningful when exactly one candidate remains.
    pub open spec fn sole_digit(self, x: int, y: int) -> u8 {
        ((choose|k: int| 0 <= k < 9 && self.cand(x, y, k)) + 1) as u8
    }

    /// A cell with exactly one candidate left indeed has one.
    pub proof fn lemma_sole_exists(self, x: int, y: int)
        requires
            self.cand_count(x, y) == 1,
        ensures
            exists|k: int| 0 <= k < 9 && self.cand(x, y, k),
            1 <= self.sole_digit(x, y) <= 9,
            self.cand(x, y, self.sole_digit(x, y) - 1),
    {
        if !(exists|k: int| 0 <= k < 9 && self.cand(x, y, k)) {
            self.lemma_count_zero(x, y, 9);
        }
        let k = choose|k: int| 0 <= k < 9 && self.cand(x, y, k);
        assert(self.sole_digit(x, y) == k + 1);
    }

    proof fn lemma_count_upto_singleton(self, x: int, y: int, k0: int, n: int)
        requires
            0 <= k0 < 9,
            0 <= n <= 9,
            self.cand(x, y, k0),
            forall|k: int| 0 <= k < 9 && k != k0 ==> !#[trigger] self.cand(x, y, k),
        ensures
            self.cand_count_upto(x, y, n) == if k0 < n {
                1int
            } else {
                0int
            },
        decreases n,
    {
        if n > 0 {
            self.lemma_count_upto_singleton(x, y, k0, n - 1);
        }
    }

    /// A cell whose only remaining candidate is digit `k0 + 1` has
    /// exactly one candidate.
    pub proof fn lemma_count_singleton(self, x: int, y: int, k0: int)
        requires
            0 <= k0 < 9,
            self.cand(x, y, k0),
            forall|k: int| 0 <= k < 9 && k != k0 ==> !#[trigger] self.cand(x, y, k),
        ensures
            self.cand_count(x, y) == 1,
    {
        self.lemma_count_upto_singleton(x, y, k0, 9);
    }

    /// With exactly one candidate left, any candidate digit is that one.
    pub proof fn lemma_single_candidate(self, x: int, y: int, k1: int, k2: int)
        requires
            self.cand_count(x, y) == 1,
            0 <= k1 < 9,
            0 <= k2 < 9,
            self.cand(x, y, k1),
            self.cand(x, y, k2),
        ensures
            k1 == k2,
    {
        if k1 < k2 {
            self.lemma_count_ge_two(x, y, k1, k2, 9);
        } else if k2 < k1 {
            self.lemma_count_ge_two(x, y, k2, k1, 9);
        }
    }

    /// Collapses the candidate set of (x, y) to the digit `val` alone;
    /// with `val` 0 the tracker is left as it is.
    pub fn pin_cell(&mut self, val: u8, x: usize, y: usize)
        requires
            x < 9,
            y < 9,
            val <= 9,
        ensures
            forall|a: int, b: int, k: int|
                in_grid(a, b) && 0 <= k < 9 ==> #[trigger] final(self).cand(a, b, k) == (
                if val != 0 && a == x && b == y {
                    k == val - 1
                } else {
                    old(self).cand(a, b, k)
                }),
    {
        if val != 0 {
            self.field[x][y] = [false; 9];
            self.field[x][y][(val - 1) as usize] = true;
        }
    }

    /// Rules digit `val` out across the whole line x and the whole line y;
    /// with `val` 0 the tracker is left as it is. Every other candidate
    /// bit is untouched.
    pub fn update_line(&mut self, val: u8, x: usize, y: usize)
        requires
            x < 9,
            y < 9,
            val <= 9,
        ensures
            forall|a: int, b: int, k: int|
                in_grid(a, b) && 0 <= k < 9 ==> #[trigger] final(self).cand(a, b, k) == (old(
                    self,
                ).cand(a, b, k) && !(k == val - 1 && (a == x || b == y))),
    {
        if val != 0 {
            let i = (val - 1) as usize;
            let mut b: usize = 0;
            while b < 9
                invariant
                    b <= 9,
                    x < 9,
                    y < 9,
                    i < 9,
                    i == val - 1,
                    forall|a2: int, b2: int, k2: int|
                        in_grid(a2, b2) && 0 <= k2 < 9 ==> #[trigger] self.cand(a2, b2, k2) == (old(
                            self,
                        ).cand(a2, b2, k2) && !(k2 == i && a2 == x && b2 < b)),
                decreases 9 - b,
            {
                let ghost prev = *self;
                self.field[x][b][i] = false;
                proof {
                    assert forall|a2: int, b2: int, k2: int|
                        in_grid(a2, b2) && 0 <= k2 < 9 implies #[trigger] self.cand(a2, b2, k2) == (
                    prev.cand(a2, b2, k2) && !(a2 == x && b2 == b && k2 == i)) by {
                        if a2 != x {
                            assert(self.field[a2] == prev.field[a2]);
                        } else if b2 != b {
                            assert(self.field[a2][b2] == prev.field[a2][b2]);
                        } else if k2 != i {
                            assert(self.field[a2][b2][k2] == prev.field[a2][b2][k2]);
                        } else {
                            assert(!self.field[a2][b2][k2]);
                        }
                    }
                }
                b += 1;
            }
            let mut a: usize = 0;
            while a < 9
                invariant
                    a <= 9,
                    x < 9,
                    y < 9,
                    i < 9,
                    i == val - 1,
                    forall|a2: int, b2: int, k2: int|
                        in_grid(a2, b2) && 0 <= k2 < 9 ==> #[trigger] self.cand(a2, b2, k2) == (old(
                            self,
                        ).cand(a2, b2, k2) && !(k2 == i && a2 == x) && !(k2 == i && b2 == y && a2
                            < a)),
                decreases 9 - a,
            {
                let ghost prev = *self;
                self.field[a][y][i] = false;
                proof {
                    assert forall|a2: int, b2: int, k2: int|
                        in_grid(a2, b2) && 0 <= k2 < 9 implies #[trigger] self.cand(a2, b2, k2) == (
                    prev.cand(a2, b2, k2) && !(a2 == a && b2 == y && k2 == i)) by {
                        if a2 != a {
                            assert(self.field[a2] == prev.field[a2]);
                        } else if b2 != y {
                            assert(self.field[a2][b2] == prev.field[a2][b2]);
                        } else if k2 != i {
                            assert(self.field[a2][b2][k2] == prev.field[a2][b2][k2]);
                        } else {
                            assert(!self.field[a2][b2][k2]);
                        }
                    }
                }
                a += 1;
            }
        }
    }

    /// Rules digit `val` out across the 3x3 block of (x, y); with `val` 0
    /// the tracker is left as it is. Every other candidate bit is
    /// untouched.
    pub fn update_block(&mut self, val: u8, x: usize, y: usize)
        requires
            x < 9,
            y < 9,
            val <= 9,
        ensures
            forall|a: int, b: int, k: int|
                in_grid(a, b) && 0 <= k < 9 ==> #[trigger] final(self).cand(a, b, k) == (old(
                    self,
                ).cand(a, b, k) && !(k == val - 1 && same_block(a, b, x as int, y as int))),
    {
        if val != 0 {
            let i = (val - 1) as usize;
            let x0 = x - x % 3;
            let y0 = y - y % 3;
            let mut a = x0;
            while a < x0 + 3
                invariant
                    x < 9,
                    y < 9,
                    i < 9,
                    i == val - 1,
                    x0 == x - x % 3,
                    y0 == y - y % 3,
                    x0 <= a <= x0 + 3,
                    forall|a2: int, b2: int, k2: int|
                        in_grid(a2, b2) && 0 <= k2 < 9 ==> #[trigger] self.cand(a2, b2, k2) == (old(
                            self,
                        ).cand(a2, b2, k2) && !(k2 == i && same_block(
                            a2,
                            b2,
                            x as int,
                            y as int,
                        ) && a2 < a)),
                decreases x0 + 3 - a,
            {
                let mut b = y0;
                while b < y0 + 3
                    invariant
                        x < 9,
                        y < 9,
                        i < 9,
                        i == val - 1,
                        x0 == x - x % 3,
                        y0 == y - y % 3,
                        x0 <= a < x0 + 3,
                        y0 <= b <= y0 + 3,
                        forall|a2: int, b2: int, k2: int|
                            in_grid(a2, b2) && 0 <= k2 < 9 ==> #[trigger] self.cand(a2, b2, k2)
                                == (old(self).cand(a2, b2, k2) && !(k2 == i && same_block(
                                a2,
                                b2,
                                x as int,
                                y as int,
                            ) && (a2 < a || (a2 == a && b2 < b)))),
                    decreases y0 + 3 - b,
                {
                    let ghost prev = *self;
                    self.field[a][b][i] = false;
                    proof {
                        assert forall|a2: int, b2: int, k2: int|
                            in_grid(a2, b2) && 0 <= k2 < 9 implies #[trigger] self.cand(
                            a2,
                            b2,
                            k2,
                        ) == (prev.cand(a2, b2, k2) && !(a2 == a && b2 == b && k2 == i)) by {
                            if a2 != a {
                                assert(self.field[a2] == prev.field[a2]);
                            } else if b2 != b {
                                assert(self.field[a2][b2] == prev.field[a2][b2]);
                            } else if k2 != i {
                                assert(self.field[a2][b2][k2] == prev.field[a2][b2][k2]);
                            } else {
                                assert(!self.field[a2][b2][k2]);
                            }
                        }
                    }
                    b += 1;
                }
                a += 1;
            }
        }
    }

    /// Eliminates, for every filled cell of `s`, its digit from that
    /// cell's lines and block. Afterwards a digit is a candidate exactly
    /// where it was one before and no filled cell of `s` rules it out.
    pub fn update_field(&mut self, s: &Sudoku)
        requires
            grid_wf(s@),
        ensures
            forall|a: int, b: int, k: int|
                in_grid(a, b) && 0 <= k < 9 ==> #[trigger] final(self).cand(a, b, k) == (old(
                    self,
                ).cand(a, b, k) && !eliminated(s@, a, b, k)),
    {
        let mut x: usize = 0;
        while x < 9
            invariant
                x <= 9,
                grid_wf(s@),
                forall|a: int, b: int, k: int|
                    in_grid(a, b) && 0 <= k < 9 ==> #[trigger] self.cand(a, b, k) == (old(
                        self,
                    ).cand(a, b, k) && !eliminated_upto(s@, a, b, k, x * 9)),
            decreases 9 - x,
        {
            let mut y: usize = 0;
            while y < 9
                invariant
                    x < 9,
                    y <= 9,
                    grid_wf(s@),
                    forall|a: int, b: int, k: int|
                        in_grid(a, b) && 0 <= k < 9 ==> #[trigger] self.cand(a, b, k) == (old(
                            self,
                        ).cand(a, b, k) && !eliminated_upto(s@, a, b, k, x * 9 + y)),
                decreases 9 - y,
            {
                let ghost before = *self;
                let v = s.get(x, y);
                self.update_line(v, x, y);
                self.update_block(v, x, y);
                proof {
                    let n: int = x as int * 9 + y as int;
                    assert(n / 9 == x as int && n % 9 == y as int);
                    assert forall|a: int, b: int, k: int|
                        in_grid(a, b) && 0 <= k < 9 implies #[trigger] self.cand(a, b, k) == (
                    before.cand(a, b, k) && !(k == v - 1 && sees(x as int, y as int, a, b))) by {}
                    assert forall|a: int, b: int, k: int|
                        in_grid(a, b) && 0 <= k < 9 implies #[trigger] self.cand(a, b, k) == (old(
                        self,
                    ).cand(a, b, k) && !eliminated_upto(s@, a, b, k, n + 1)) by {
                        lemma_elim_upto_step(s@, a, b, k, n);
                    }
                }
                y += 1;
            }
            x += 1;
        }
        proof {
            assert forall|a: int, b: int, k: int|
                in_grid(a, b) && 0 <= k < 9 implies #[trigger] final(self).cand(a, b, k) == (old(
                self,
            ).cand(a, b, k) && !eliminated(s@, a, b, k)) by {
                lemma_elim_upto_full(s@, a, b, k);
            }
        }
    }

    /// The single remaining candidate digit of cell (x, y), or 0 when the
    /// cell still has no candidate or more than one.
    pub fn get_unique_value(&self, x: usize, y: usize) -> (r: u8)
        requires
            x < 9,
            y < 9,
        ensures
            (r != 0) <==> (self.cand_count(x as int, y as int) == 1),
            r != 0 ==> 1 <= r <= 9 && self.cand(x as int, y as int, r - 1),
            r != 0 ==> r == self.sole_digit(x as int, y as int),
            forall|k: int|
                0 <= k < 9 && #[trigger] self.cand(x as int, y as int, k) && self.cand_count(
                    x as int,
                    y as int,
                ) == 1 ==> r == k + 1,
    {
        let mut count: usize = 0;
        let mut i: usize = 0;
        while i < 9
            invariant
                i <= 9,
                x < 9,
                y < 9,
                count == self.cand_count_upto(x as int, y as int, i as int),
                count <= i,
            decreases 9 - i,
        {
            if self.field[x][y][i] {
                count += 1;
            }
            i += 1;
        }
        if count == 1 {
            let mut i: usize = 0;
            while i < 9
                invariant
                    i <= 9,
                    x < 9,
                    y < 9,
                    self.cand_count(x as int, y as int) == 1,
                    forall|k: int| 0 <= k < i ==> !#[trigger] self.cand(x as int, y as int, k),
                decreases 9 - i,
            {
                if self.field[x][y][i] {
                    proof {
                        assert forall|k: int|
                            0 <= k < 9 && #[trigger] self.cand(x as int, y as int, k) implies i + 1
                            == k + 1 by {
                            self.lemma_single_candidate(x as int, y as int, i as int, k);
                        }
                        self.lemma_sole_exists(x as int, y as int);
                    }
                    return (i + 1) as u8;
                }
                i += 1;
            }
            proof {
                self.lemma_count_zero(x as int, y as int, 9);
                assert(false);
            }
        }
        0
    }
}

} // verus!
