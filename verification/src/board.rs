//! The 9x9 grid: cells hold 0 for a blank or a digit 1..=9.
//!
//! A grid is modelled as a sequence of 81 cells; the cell with coordinates
//! (x, y) sits at linear index `y * 9 + x`, so linear index c names the
//! cell (c % 9, c / 9).

use vstd::prelude::*;

verus! {

broadcast use vstd::array::group_array_axioms;

/// Both coordinates name a cell of the 9x9 grid.
pub open spec fn in_grid(x: int, y: int) -> bool {
    0 <= x < 9 && 0 <= y < 9
}

/// The digit of grid `g` at coordinates (x, y).
pub open spec fn grid_at(g: Seq<u8>, x: int, y: int) -> u8 {
    g[y * 9 + x]
}

/// The grid has its 81 cells and every cell holds 0..=9.
pub open spec fn grid_wf(g: Seq<u8>) -> bool {
    g.len() == 81 && forall|c: int| 0 <= c < 81 ==> g[c] <= 9
}

/// The two cells lie in the same 3x3 block.
pub open spec fn same_block(x1: int, y1: int, x2: int, y2: int) -> bool {
    x1 / 3 == x2 / 3 && y1 / 3 == y2 / 3
}

/// The two cells share a unit: a line in either direction, or a 3x3 block.
pub open spec fn sees(x1: int, y1: int, x2: int, y2: int) -> bool {
    x1 == x2 || y1 == y2 || same_block(x1, y1, x2, y2)
}

/// No two distinct cells of any unit hold the same digit.
pub open spec fn no_conflicts(g: Seq<u8>) -> bool {
    forall|x1: int, y1: int, x2: int, y2: int|
        in_grid(x1, y1) && in_grid(x2, y2) && !(x1 == x2 && y1 == y2)
            && sees(x1, y1, x2, y2) && #[trigger] grid_at(g, x1, y1) != 0
            ==> grid_at(g, x1, y1) != #[trigger] grid_at(g, x2, y2)
}

/// Every cell holds a digit.
pub open spec fn grid_complete(g: Seq<u8>) -> bool {
    forall|c: int| 0 <= c < 81 ==> g[c] != 0
}

/// A fully solved grid: 81 digits with no repeated digit in any unit.
pub open spec fn valid_complete(g: Seq<u8>) -> bool {
    grid_wf(g) && grid_complete(g) && no_conflicts(g)
}

/// `sol` keeps every given digit of `g` (and may fill its blanks).
pub open spec fn extends(sol: Seq<u8>, g: Seq<u8>) -> bool {
    sol.len() == 81 && g.len() == 81 && forall|c: int|
        0 <= c < 81 && #[trigger] g[c] != 0 ==> sol[c] == g[c]
}

/// How many of the first `n` cells hold a digit.
pub open spec fn filled_upto(g: Seq<u8>, n: int) -> int
    decreases n,
{
    if n <= 0 {
        0
    } else {
        filled_upto(g, n - 1) + if g[n - 1] != 0 { 1int } else { 0int }
    }
}

/// How many cells of the grid hold a digit.
pub open spec fn filled_count(g: Seq<u8>) -> int {
    filled_upto(g, 81)
}

/// On how many of the first `n` cells the two grids disagree.
pub open spec fn diff_upto(g1: Seq<u8>, g2: Seq<u8>, n: int) -> int
    decreases n,
{
    if n <= 0 {
        0
    } else {
        diff_upto(g1, g2, n - 1) + if g1[n - 1] != g2[n - 1] { 1int } else { 0int }
    }
}

/// On how many cells the two grids disagree.
pub open spec fn diff_count(g1: Seq<u8>, g2: Seq<u8>) -> int {
    diff_upto(g1, g2, 81)
}

pub proof fn lemma_diff_bounds(g1: Seq<u8>, g2: Seq<u8>, n: int)
    ensures
        0 <= diff_upto(g1, g2, n) <= if n >= 0 { n } else { 0 },
    decreases n,
{
    if n > 0 {
        lemma_diff_bounds(g1, g2, n - 1);
    }
}

/// Changing `g2` at one cell where the grids agreed raises the
/// disagreement count by one.
pub proof fn lemma_diff_update(g1: Seq<u8>, g2: Seq<u8>, c: int, v: u8, n: int)
    requires
        0 <= c < 81,
        g1.len() == 81,
        g2.len() == 81,
        g1[c] == g2[c],
        v != g1[c],
        n <= 81,
    ensures
        diff_upto(g1, g2.update(c, v), n) == diff_upto(g1, g2, n) + if c < n { 1int } else { 0int },
    decreases n,
{
    if n > 0 {
        lemma_diff_update(g1, g2, c, v, n - 1);
    }
}

/// Grids agreeing on the first `n` cells disagree on none of them.
pub proof fn lemma_diff_zero(g1: Seq<u8>, g2: Seq<u8>, n: int)
    requires
        forall|c: int| 0 <= c < n ==> g1[c] == g2[c],
    ensures
        diff_upto(g1, g2, n) == 0,
    decreases n,
{
    if n > 0 {
        lemma_diff_zero(g1, g2, n - 1);
    }
}

/// Grids that disagree somewhere have a witness cell.
pub proof fn lemma_diff_pos_witness(g1: Seq<u8>, g2: Seq<u8>, n: int)
    requires
        diff_upto(g1, g2, n) > 0,
    ensures
        exists|c: int| 0 <= c < n && g1[c] != #[trigger] g2[c],
    decreases n,
{
    if n > 0 {
        if g1[n - 1] != g2[n - 1] {
            assert(0 <= n - 1 < n && g1[n - 1] != g2[n - 1]);
        } else {
            lemma_diff_pos_witness(g1, g2, n - 1);
        }
    }
}

/// Grids that disagree nowhere agree everywhere.
pub proof fn lemma_diff_zero_eq(g1: Seq<u8>, g2: Seq<u8>, n: int)
    requires
        diff_upto(g1, g2, n) == 0,
    ensures
        forall|c: int| 0 <= c < n ==> g1[c] == #[trigger] g2[c],
    decreases n,
{
    if n > 0 {
        lemma_diff_bounds(g1, g2, n - 1);
        lemma_diff_zero_eq(g1, g2, n - 1);
    }
}

/// A grid with all of its first `n` cells counted as filled has no blank
/// among them.
pub proof fn lemma_filled_full(g: Seq<u8>, n: int)
    requires
        filled_upto(g, n) == n,
        n >= 0,
    ensures
        forall|c: int| 0 <= c < n ==> g[c] != 0,
    decreases n,
{
    if n > 0 {
        lemma_filled_bounds(g, n - 1);
        lemma_filled_full(g, n - 1);
    }
}

pub proof fn lemma_filled_bounds(g: Seq<u8>, n: int)
    ensures
        0 <= filled_upto(g, n) <= if n >= 0 { n } else { 0 },
    decreases n,
{
    if n > 0 {
        lemma_filled_bounds(g, n - 1);
    }
}

/// A grid with a digit in each of its first `n` cells has `n` of them
/// filled.
pub proof fn lemma_filled_complete(g: Seq<u8>, n: int)
    requires
        forall|c: int| 0 <= c < n ==> g[c] != 0,
    ensures
        filled_upto(g, n) == n || n < 0,
    decreases n,
{
    if n > 0 {
        lemma_filled_complete(g, n - 1);
    }
}

/// Changing one cell changes the filled count by the difference of the
/// two cells' emptiness.
pub proof fn lemma_filled_update(g: Seq<u8>, c: int, v: u8, n: int)
    requires
        0 <= c < 81,
        g.len() == 81,
        n <= 81,
    ensures
        filled_upto(g.update(c, v), n) == filled_upto(g, n) + if c < n {
            (if v != 0 { 1int } else { 0int }) - (if g[c] != 0 { 1int } else { 0int })
        } else {
            0int
        },
    decreases n,
{
    if n > 0 {
        lemma_filled_update(g, c, v, n - 1);
    }
}

/// When `g2` only fills blanks of `g1`, the filled cells of `g2` are
/// those of `g1` plus the cells where the grids differ.
pub proof fn lemma_filled_of_diff(g1: Seq<u8>, g2: Seq<u8>, n: int)
    requires
        forall|c: int| 0 <= c < 81 && #[trigger] g1[c] != 0 ==> g2[c] == g1[c],
        forall|c: int| 0 <= c < 81 && #[trigger] g1[c] != g2[c] ==> g2[c] != 0,
        n <= 81,
    ensures
        filled_upto(g2, n) == filled_upto(g1, n) + diff_upto(g1, g2, n),
    decreases n,
{
    if n > 0 {
        lemma_filled_of_diff(g1, g2, n - 1);
    }
}

/// Law: in a fully solved valid grid, every line of fixed first
/// coordinate holds every digit somewhere — together with
/// `no_conflicts`, exactly once.
pub proof fn lemma_line_contains_all(g: Seq<u8>, x: int, d: u8)
    requires
        valid_complete(g),
        0 <= x < 9,
        1 <= d <= 9,
    ensures
        exists|y: int| 0 <= y < 9 && grid_at(g, x, y) == d,
{
    broadcast use vstd::seq_lib::seq_to_set_is_finite;

    let vals = Seq::new(9, |y: int| grid_at(g, x, y));
    let digits = Seq::new(9, |k: int| (k + 1) as u8);
    assert(vals.no_duplicates()) by {
        assert forall|i: int, j: int|
            0 <= i < 9 && 0 <= j < 9 && i != j implies vals[i] != vals[j] by {
            lemma_pack_of_unpack(x, i);
            lemma_pack_of_unpack(x, j);
            assert(grid_at(g, x, i) != 0);
            assert(sees(x, i, x, j));
        }
    }
    vals.unique_seq_to_set();
    digits.lemma_cardinality_of_set();
    assert(vals.to_set().subset_of(digits.to_set())) by {
        assert forall|v: u8| vals.to_set().contains(v) implies digits.to_set().contains(v) by {
            let i = choose|i: int| 0 <= i < vals.len() && vals[i] == v;
            lemma_pack_of_unpack(x, i);
            assert(digits[v - 1] == v);
            assert(digits.contains(v));
        }
    }
    vstd::set_lib::lemma_len_subset(vals.to_set(), digits.to_set());
    vstd::set_lib::lemma_subset_equality(vals.to_set(), digits.to_set());
    assert(digits[d - 1] == d);
    assert(digits.contains(d));
    assert(vals.to_set().contains(d));
    let y = choose|y: int| 0 <= y < vals.len() && vals[y] == d;
    assert(grid_at(g, x, y) == d);
}

/// Law: in a fully solved valid grid, every line of fixed second
/// coordinate holds every digit somewhere — together with
/// `no_conflicts`, exactly once.
pub proof fn lemma_column_contains_all(g: Seq<u8>, y: int, d: u8)
    requires
        valid_complete(g),
        0 <= y < 9,
        1 <= d <= 9,
    ensures
        exists|x: int| 0 <= x < 9 && grid_at(g, x, y) == d,
{
    broadcast use vstd::seq_lib::seq_to_set_is_finite;

    let vals = Seq::new(9, |x: int| grid_at(g, x, y));
    let digits = Seq::new(9, |k: int| (k + 1) as u8);
    assert(vals.no_duplicates()) by {
        assert forall|i: int, j: int|
            0 <= i < 9 && 0 <= j < 9 && i != j implies vals[i] != vals[j] by {
            lemma_pack_of_unpack(i, y);
            lemma_pack_of_unpack(j, y);
            assert(grid_at(g, i, y) != 0);
            assert(sees(i, y, j, y));
        }
    }
    vals.unique_seq_to_set();
    digits.lemma_cardinality_of_set();
    assert(vals.to_set().subset_of(digits.to_set())) by {
        assert forall|v: u8| vals.to_set().contains(v) implies digits.to_set().contains(v) by {
            let i = choose|i: int| 0 <= i < vals.len() && vals[i] == v;
            lemma_pack_of_unpack(i, y);
            assert(digits[v - 1] == v);
            assert(digits.contains(v));
        }
    }
    vstd::set_lib::lemma_len_subset(vals.to_set(), digits.to_set());
    vstd::set_lib::lemma_subset_equality(vals.to_set(), digits.to_set());
    assert(digits[d - 1] == d);
    assert(digits.contains(d));
    assert(vals.to_set().contains(d));
    let x = choose|x: int| 0 <= x < vals.len() && vals[x] == d;
    assert(grid_at(g, x, y) == d);
}

/// Law: in a fully solved valid grid, every 3x3 block holds every digit
/// somewhere — together with `no_conflicts`, exactly once.
pub proof fn lemma_block_contains_all(g: Seq<u8>, u: int, v: int, d: u8)
    requires
        valid_complete(g),
        0 <= u < 3,
        0 <= v < 3,
        1 <= d <= 9,
    ensures
        exists|x: int, y: int|
            0 <= x < 9 && 0 <= y < 9 && x / 3 == u && y / 3 == v && #[trigger] grid_at(g, x, y)
                == d,
{
    broadcast use vstd::seq_lib::seq_to_set_is_finite;

    let vals = Seq::new(9, |t: int| grid_at(g, 3 * u + t / 3, 3 * v + t % 3));
    let digits = Seq::new(9, |k: int| (k + 1) as u8);
    assert(vals.no_duplicates()) by {
        assert forall|i: int, j: int|
            0 <= i < 9 && 0 <= j < 9 && i != j implies vals[i] != vals[j] by {
            let (x1, y1) = (3 * u + i / 3, 3 * v + i % 3);
            let (x2, y2) = (3 * u + j / 3, 3 * v + j % 3);
            lemma_pack_of_unpack(x1, y1);
            lemma_pack_of_unpack(x2, y2);
            assert(grid_at(g, x1, y1) != 0);
            assert(same_block(x1, y1, x2, y2));
            assert(sees(x1, y1, x2, y2));
            assert(!(x1 == x2 && y1 == y2));
        }
    }
    vals.unique_seq_to_set();
    digits.lemma_cardinality_of_set();
    assert(vals.to_set().subset_of(digits.to_set())) by {
        assert forall|w: u8| vals.to_set().contains(w) implies digits.to_set().contains(w) by {
            let i = choose|i: int| 0 <= i < vals.len() && vals[i] == w;
            lemma_pack_of_unpack(3 * u + i / 3, 3 * v + i % 3);
            assert(digits[w - 1] == w);
            assert(digits.contains(w));
        }
    }
    vstd::set_lib::lemma_len_subset(vals.to_set(), digits.to_set());
    vstd::set_lib::lemma_subset_equality(vals.to_set(), digits.to_set());
    assert(digits[d - 1] == d);
    assert(digits.contains(d));
    assert(vals.to_set().contains(d));
    let t = choose|t: int| 0 <= t < vals.len() && vals[t] == d;
    assert(grid_at(g, 3 * u + t / 3, 3 * v + t % 3) == d);
    assert((3 * u + t / 3) / 3 == u && (3 * v + t % 3) / 3 == v);
}

/// Law: unpacking a linear cell index yields grid coordinates, and packing
/// them again gives the index back.
pub proof fn lemma_unpack_of_pack(c: int)
    requires
        0 <= c < 81,
    ensures
        in_grid(c % 9, c / 9),
        (c / 9) * 9 + c % 9 == c,
{
}

/// Law: packing grid coordinates yields a linear cell index in 0..81, and
/// unpacking it gives both coordinates back.
pub proof fn lemma_pack_of_unpack(x: int, y: int)
    requires
        in_grid(x, y),
    ensures
        0 <= y * 9 + x < 81,
        (y * 9 + x) % 9 == x,
        (y * 9 + x) / 9 == y,
{
}

/// Turns a linear cell index 0..81 into the coordinates of its cell.
pub fn unpack_index(index: usize) -> (r: (usize, usize))
    requires
        index < 81,
    ensures
        r.0 == index % 9,
        r.1 == index / 9,
        r.0 < 9,
        r.1 < 9,
{
    (index % 9, index / 9)
}

/// A 9x9 Sudoku grid; `field[x][y]` is the digit of cell (x, y), 0 a blank.
#[derive(Debug, Copy, Clone, Eq, PartialEq)]
pub struct Sudoku {
    pub field: [[u8; 9]; 9],
}

impl View for Sudoku {
    type V = Seq<u8>;

    open spec fn view(&self) -> Seq<u8> {
        Seq::new(81, |c: int| self.field[c % 9][c / 9])
    }
}

impl Default for Sudoku {
    /// The empty grid.
    fn default() -> (r: Self)
        ensures
            grid_wf(r@),
            forall|c: int| 0 <= c < 81 ==> r@[c] == 0,
    {
        Sudoku { field: [[0; 9]; 9] }
    }
}

impl Sudoku {
    /// Reads the digit of cell (x, y).
    pub fn get(&self, x: usize, y: usize) -> (r: u8)
        requires
            x < 9,
            y < 9,
        ensures
            r == grid_at(self@, x as int, y as int),
    {
        proof {
            lemma_pack_of_unpack(x as int, y as int);
        }
        self.field[x][y]
    }

    /// Writes digit `v` into cell (x, y).
    pub fn set(&mut self, x: usize, y: usize, v: u8)
        requires
            x < 9,
            y < 9,
        ensures
            final(self)@ == old(self)@.update(y * 9 + x, v),
    {
        self.field[x][y] = v;
        proof {
            assert forall|c: int| 0 <= c < 81 implies final(self)@[c] == old(
                self,
            )@.update(y * 9 + x, v as u8)[c] by {
                lemma_unpack_of_pack(c);
                lemma_pack_of_unpack(x as int, y as int);
            }
            assert(final(self)@ =~= old(self)@.update(y * 9 + x, v as u8));
        }
    }
}

} // verus!
