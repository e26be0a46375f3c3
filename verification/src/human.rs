//! The human-like propagation solver: iterative, non-branching deduction
//! over a board and its candidate tracker, using two rules only — sole
//! candidate and unique candidate. It serves as the generator's oracle
//! for how recoverable a partially erased grid is.

use vstd::prelude::*;

use crate::board::{
    diff_count, diff_upto, extends, grid_at, grid_wf, in_grid, lemma_block_contains_all,
    lemma_column_contains_all, lemma_diff_bounds, lemma_diff_update, lemma_diff_zero,
    lemma_line_contains_all, lemma_pack_of_unpack, lemma_unpack_of_pack, same_block, sees,
    valid_complete, Sudoku,
};
use crate::candidates::{eliminated, PossibleEntries};
use crate::solver::tracker_admits;

verus! {

/// Scan marker: the digit was not seen in the unit yet.
pub const POS_NOT_FOUND: usize = 20;

/// Scan marker: the digit was seen in more than one cell of the unit.
pub const POS_NOT_UNIQUE: usize = 30;

/// Digit `i + 1` is a candidate of cell (a, b) and of no other cell of
/// line a.
pub open spec fn unique_in_line(p: PossibleEntries, a: int, i: int, b: int) -> bool {
    p.cand(a, b, i) && forall|b2: int| 0 <= b2 < 9 && b2 != b ==> !#[trigger] p.cand(a, b2, i)
}

/// What a scan of the first `n` cells of line a leaves in a position
/// marker for digit `i + 1`: not found, the one admitting cell, or not
/// unique.
#[verifier::opaque]
spec fn pos_marks_exactly(pa: PossibleEntries, a: int, i: int, pos: int, n: int) -> bool {
    if pos == POS_NOT_FOUND {
        forall|b2: int| 0 <= b2 < n ==> !#[trigger] pa.cand(a, b2, i)
    } else if pos == POS_NOT_UNIQUE {
        exists|b2: int, b3: int|
            0 <= b2 < n && 0 <= b3 < n && b2 != b3 && #[trigger] pa.cand(a, b2, i)
                && #[trigger] pa.cand(a, b3, i)
    } else {
        0 <= pos < n && pa.cand(a, pos, i) && forall|b2: int|
            0 <= b2 < n && b2 != pos ==> !#[trigger] pa.cand(a, b2, i)
    }
}

/// One scanned cell extends the position marker's meaning by one cell.
proof fn lemma_pos_step(pa: PossibleEntries, a: int, i: int, pos: int, b: int)
    requires
        0 <= b < 9,
        pos_marks_exactly(pa, a, i, pos, b),
    ensures
        pa.cand(a, b, i) ==> pos_marks_exactly(
            pa,
            a,
            i,
            if pos == POS_NOT_FOUND {
                b
            } else {
                POS_NOT_UNIQUE as int
            },
            b + 1,
        ),
        !pa.cand(a, b, i) ==> pos_marks_exactly(pa, a, i, pos, b + 1),
{
    reveal(pos_marks_exactly);
    if pa.cand(a, b, i) && pos != POS_NOT_FOUND && pos != POS_NOT_UNIQUE {
        assert(pa.cand(a, pos, i) && pa.cand(a, b, i) && pos != b);
    }
}

/// A full scan of a line pins the marker of a uniquely placeable digit
/// to its one admitting cell.
proof fn lemma_pos_of_unique(pa: PossibleEntries, a: int, i: int, pos: int, b: int)
    requires
        pos_marks_exactly(pa, a, i, pos, 9),
        0 <= b < 9,
        unique_in_line(pa, a, i, b),
    ensures
        pos == b,
{
    reveal(pos_marks_exactly);
    if pos == POS_NOT_FOUND {
        assert(!pa.cand(a, b, i));
    } else if pos == POS_NOT_UNIQUE {
        let (b2, b3) = choose|b2: int, b3: int|
            0 <= b2 < 9 && 0 <= b3 < 9 && b2 != b3 && #[trigger] pa.cand(a, b2, i)
                && #[trigger] pa.cand(a, b3, i);
        assert(b2 != b || b3 != b);
    }
}

/// Digit `i + 1` is a candidate of cell (a, b) and of no other cell of
/// column b.
pub open spec fn unique_in_column(p: PossibleEntries, b: int, i: int, a: int) -> bool {
    p.cand(a, b, i) && forall|a2: int| 0 <= a2 < 9 && a2 != a ==> !#[trigger] p.cand(a2, b, i)
}

/// Digit `i + 1` is a candidate of cell (x, y) and of no other cell of
/// its 3x3 block.
pub open spec fn unique_in_block(p: PossibleEntries, i: int, x: int, y: int) -> bool {
    p.cand(x, y, i) && forall|x2: int, y2: int|
        in_grid(x2, y2) && same_block(x2, y2, x, y) && !(x2 == x && y2 == y) ==> !#[trigger] p.cand(
            x2,
            y2,
            i,
        )
}

/// Some still-blank cell of `s` holds the only surviving bit of a digit
/// within one of its units.
#[verifier::opaque]
pub open spec fn some_unique_blank(p: PossibleEntries, s: Seq<u8>) -> bool {
    (exists|i: int, x: int, y: int|
        in_grid(x, y) && 0 <= i < 9 && grid_at(s, x, y) == 0 && #[trigger] unique_in_line(
            p,
            x,
            i,
            y,
        )) || (exists|i: int, x: int, y: int|
        in_grid(x, y) && 0 <= i < 9 && grid_at(s, x, y) == 0 && #[trigger] unique_in_column(
            p,
            y,
            i,
            x,
        )) || (exists|i: int, x: int, y: int|
        in_grid(x, y) && 0 <= i < 9 && grid_at(s, x, y) == 0 && #[trigger] unique_in_block(
            p,
            i,
            x,
            y,
        ))
}

/// `q` is the tracker a fresh solver build plus one full elimination
/// leaves for grid `g`: givens pinned, then every filled cell's digit
/// ruled out across its units.
pub open spec fn start_refreshed(q: PossibleEntries, g: Seq<u8>) -> bool {
    forall|x: int, y: int, k: int|
        in_grid(x, y) && 0 <= k < 9 ==> #[trigger] q.cand(x, y, k) == ((grid_at(g, x, y) == 0 || k
            == grid_at(g, x, y) - 1) && !eliminated(g, x, y, k))
}

/// The first deduction round from grid `g` finds work: after full
/// elimination, some blank cell keeps exactly one candidate, or some
/// digit is confined to one blank cell of a unit.
pub open spec fn first_round_progress(g: Seq<u8>) -> bool {
    exists|q: PossibleEntries|
        #[trigger] start_refreshed(q, g) && ((exists|x: int, y: int|
            in_grid(x, y) && grid_at(g, x, y) == 0 && #[trigger] q.cand_count(x, y) == 1)
            || some_unique_blank(q, g))
}

/// As `pos_marks_exactly`, for the scan of column a.
#[verifier::opaque]
spec fn col_marks_exactly(pa: PossibleEntries, a: int, i: int, pos: int, n: int) -> bool {
    if pos == POS_NOT_FOUND {
        forall|a2: int| 0 <= a2 < n ==> !#[trigger] pa.cand(a2, a, i)
    } else if pos == POS_NOT_UNIQUE {
        exists|a2: int, a3: int|
            0 <= a2 < n && 0 <= a3 < n && a2 != a3 && #[trigger] pa.cand(a2, a, i)
                && #[trigger] pa.cand(a3, a, i)
    } else {
        0 <= pos < n && pa.cand(pos, a, i) && forall|a2: int|
            0 <= a2 < n && a2 != pos ==> !#[trigger] pa.cand(a2, a, i)
    }
}

proof fn lemma_col_step(pa: PossibleEntries, a: int, i: int, pos: int, b: int)
    requires
        0 <= b < 9,
        col_marks_exactly(pa, a, i, pos, b),
    ensures
        pa.cand(b, a, i) ==> col_marks_exactly(
            pa,
            a,
            i,
            if pos == POS_NOT_FOUND {
                b
            } else {
                POS_NOT_UNIQUE as int
            },
            b + 1,
        ),
        !pa.cand(b, a, i) ==> col_marks_exactly(pa, a, i, pos, b + 1),
{
    reveal(col_marks_exactly);
    if pa.cand(b, a, i) && pos != POS_NOT_FOUND && pos != POS_NOT_UNIQUE {
        assert(pa.cand(pos, a, i) && pa.cand(b, a, i) && pos != b);
    }
}

proof fn lemma_col_of_unique(pa: PossibleEntries, a: int, i: int, pos: int, x: int)
    requires
        col_marks_exactly(pa, a, i, pos, 9),
        0 <= x < 9,
        unique_in_column(pa, a, i, x),
    ensures
        pos == x,
{
    reveal(col_marks_exactly);
    if pos == POS_NOT_FOUND {
        assert(!pa.cand(x, a, i));
    } else if pos == POS_NOT_UNIQUE {
        let (a2, a3) = choose|a2: int, a3: int|
            0 <= a2 < 9 && 0 <= a3 < 9 && a2 != a3 && #[trigger] pa.cand(a2, a, i)
                && #[trigger] pa.cand(a3, a, i);
        assert(a2 != x || a3 != x);
    }
}

/// As `pos_marks_exactly`, for the scan of the block with corner
/// (3u, 3v); cell number t of the scan is (3u + t / 3, 3v + t % 3).
#[verifier::opaque]
spec fn block_marks_exactly(
    pa: PossibleEntries,
    u: int,
    v: int,
    i: int,
    px: int,
    py: int,
    n: int,
) -> bool {
    if px == POS_NOT_FOUND {
        forall|t: int| 0 <= t < n ==> !#[trigger] pa.cand(3 * u + t / 3, 3 * v + t % 3, i)
    } else if px == POS_NOT_UNIQUE {
        exists|t2: int, t3: int|
            0 <= t2 < n && 0 <= t3 < n && t2 != t3 && #[trigger] pa.cand(
                3 * u + t2 / 3,
                3 * v + t2 % 3,
                i,
            ) && #[trigger] pa.cand(3 * u + t3 / 3, 3 * v + t3 % 3, i)
    } else {
        px / 3 == u && py / 3 == v && 0 <= (px - 3 * u) * 3 + (py - 3 * v) < n && pa.cand(
            px,
            py,
            i,
        ) && forall|t: int|
            0 <= t < n && t != (px - 3 * u) * 3 + (py - 3 * v) ==> !#[trigger] pa.cand(
                3 * u + t / 3,
                3 * v + t % 3,
                i,
            )
    }
}

proof fn lemma_block_step(pa: PossibleEntries, u: int, v: int, i: int, px: int, py: int, t: int)
    requires
        0 <= t < 9,
        0 <= u < 3,
        0 <= v < 3,
        block_marks_exactly(pa, u, v, i, px, py, t),
    ensures
        pa.cand(3 * u + t / 3, 3 * v + t % 3, i) ==> block_marks_exactly(
            pa,
            u,
            v,
            i,
            if px == POS_NOT_FOUND {
                3 * u + t / 3
            } else {
                POS_NOT_UNIQUE as int
            },
            3 * v + t % 3,
            t + 1,
        ),
        !pa.cand(3 * u + t / 3, 3 * v + t % 3, i) ==> block_marks_exactly(pa, u, v, i, px, py, t + 1),
{
    reveal(block_marks_exactly);
    let x = 3 * u + t / 3;
    let y = 3 * v + t % 3;
    assert((x - 3 * u) * 3 + (y - 3 * v) == t);
    if pa.cand(x, y, i) && px != POS_NOT_FOUND && px != POS_NOT_UNIQUE {
        let t0 = (px - 3 * u) * 3 + (py - 3 * v);
        assert(pa.cand(3 * u + t0 / 3, 3 * v + t0 % 3, i));
        assert(t0 != t);
    }
}

proof fn lemma_block_of_unique(
    pa: PossibleEntries,
    u: int,
    v: int,
    i: int,
    px: int,
    py: int,
    x: int,
    y: int,
)
    requires
        block_marks_exactly(pa, u, v, i, px, py, 9),
        in_grid(x, y),
        x / 3 == u,
        y / 3 == v,
        0 <= u < 3,
        0 <= v < 3,
        unique_in_block(pa, i, x, y),
    ensures
        px == x && py == y,
{
    reveal(block_marks_exactly);
    let tx = (x - 3 * u) * 3 + (y - 3 * v);
    assert(0 <= tx < 9);
    assert(3 * u + tx / 3 == x && 3 * v + tx % 3 == y);
    if px == POS_NOT_FOUND {
        assert(!pa.cand(x, y, i));
    } else if px == POS_NOT_UNIQUE {
        let (t2, t3) = choose|t2: int, t3: int|
            0 <= t2 < 9 && 0 <= t3 < 9 && t2 != t3 && #[trigger] pa.cand(
                3 * u + t2 / 3,
                3 * v + t2 % 3,
                i,
            ) && #[trigger] pa.cand(3 * u + t3 / 3, 3 * v + t3 % 3, i);
        assert(in_grid(3 * u + t2 / 3, 3 * v + t2 % 3));
        assert(in_grid(3 * u + t3 / 3, 3 * v + t3 % 3));
        assert(same_block(3 * u + t2 / 3, 3 * v + t2 % 3, x, y));
        assert(same_block(3 * u + t3 / 3, 3 * v + t3 % 3, x, y));
        assert(t2 == tx || t3 == tx);
        assert(false);
    } else {
        assert(in_grid(px, py));
        assert(same_block(px, py, x, y));
    }
}

/// A found block marker names a cell of the block whose digit survives
/// nowhere else in it.
proof fn lemma_block_pos_props(pa: PossibleEntries, u: int, v: int, i: int, px: int, py: int)
    requires
        block_marks_exactly(pa, u, v, i, px, py, 9),
        0 <= px < 9,
        0 <= u < 3,
        0 <= v < 3,
        0 <= i < 9,
    ensures
        in_grid(px, py),
        px / 3 == u,
        py / 3 == v,
        unique_in_block(pa, i, px, py),
{
    reveal(block_marks_exactly);
    let t0 = (px - 3 * u) * 3 + (py - 3 * v);
    assert(3 * u + t0 / 3 == px && 3 * v + t0 % 3 == py);
    assert forall|x3: int, y3: int|
        in_grid(x3, y3) && same_block(x3, y3, px, py) && !(x3 == px && y3 == py) implies !pa.cand(
        x3,
        y3,
        i,
    ) by {
        let t = (x3 - 3 * u) * 3 + (y3 - 3 * v);
        assert(0 <= t < 9);
        assert(3 * u + t / 3 == x3 && 3 * v + t % 3 == y3);
        assert(t != t0);
    }
}

/// In the sweep from `g1` to `g2`, every given digit was kept.
pub open spec fn gains_only(g1: Seq<u8>, g2: Seq<u8>) -> bool {
    forall|c: int| 0 <= c < 81 && #[trigger] g1[c] != 0 ==> g2[c] == g1[c]
}

/// In the sweep from `g1` to `g2`, cells changed only from blank to a
/// digit.
pub open spec fn gained_digits(g1: Seq<u8>, g2: Seq<u8>) -> bool {
    forall|c: int| 0 <= c < 81 && #[trigger] g1[c] != g2[c] ==> g1[c] == 0 && 1 <= g2[c] <= 9
}

/// Every digit the sweep from `g1` to `g2` committed was still a
/// candidate of its cell in the tracker `p0` the sweep began with.
pub open spec fn gained_candidates(p0: PossibleEntries, g1: Seq<u8>, g2: Seq<u8>) -> bool {
    forall|x: int, y: int|
        in_grid(x, y) && grid_at(g2, x, y) != #[trigger] grid_at(g1, x, y) ==> p0.cand(
            x,
            y,
            grid_at(g2, x, y) - 1,
        )
}

/// The tracker `p` differs from `p0` exactly at the cells that the sweep
/// from `g0` to `g` committed, each of them pinned to its committed
/// digit.
pub open spec fn tracker_pinned_delta(
    p0: PossibleEntries,
    g0: Seq<u8>,
    p: PossibleEntries,
    g: Seq<u8>,
) -> bool {
    forall|a: int, b: int, k: int|
        in_grid(a, b) && 0 <= k < 9 ==> #[trigger] p.cand(a, b, k) == (if grid_at(g, a, b)
            != grid_at(g0, a, b) {
            k == grid_at(g, a, b) - 1
        } else {
            p0.cand(a, b, k)
        })
}

/// A stale candidate bit of a filled cell's digit at a unit-mate only
/// survives while the filled cell itself still carries that bit.
#[verifier::opaque]
pub open spec fn stale_marked(p: PossibleEntries, s: Seq<u8>) -> bool {
    forall|x: int, y: int, a: int, b: int|
        in_grid(x, y) && in_grid(a, b) && !(x == a && y == b) && sees(x, y, a, b) && grid_at(
            s,
            x,
            y,
        ) != 0 && #[trigger] p.cand(a, b, grid_at(s, x, y) - 1) ==> p.cand(
            x,
            y,
            grid_at(s, x, y) - 1,
        )
}

/// The deduction state still tracks the hidden solution `sol`: the board
/// is a part of it, every blank cell keeps its `sol` digit as a
/// candidate, and stale bits of a placed digit point back to their cell.
#[verifier::opaque]
pub open spec fn tracks_solution(p: PossibleEntries, s: Seq<u8>, sol: Seq<u8>) -> bool {
    valid_complete(sol) && extends(sol, s) && tracker_admits(s, p, sol) && stale_marked(p, s)
}

/// Under a tracking state, a digit left to one cell of its line belongs
/// there in the solution.
proof fn lemma_unique_is_solution_line(
    p: PossibleEntries,
    s: Seq<u8>,
    sol: Seq<u8>,
    a: int,
    i: int,
    b: int,
)
    requires
        tracks_solution(p, s, sol),
        0 <= a < 9,
        0 <= i < 9,
        0 <= b < 9,
        unique_in_line(p, a, i, b),
        grid_at(s, a, b) == 0,
    ensures
        grid_at(sol, a, b) == i + 1,
{
    reveal(tracks_solution);
    reveal(stale_marked);
    lemma_line_contains_all(sol, a, (i + 1) as u8);
    let yz = choose|y: int| 0 <= y < 9 && grid_at(sol, a, y) == i + 1;
    if yz != b {
        lemma_pack_of_unpack(a, yz);
        lemma_pack_of_unpack(a, b);
        if grid_at(s, a, yz) == 0 {
            assert(p.cand(a, yz, grid_at(sol, a, yz) - 1));
            assert(p.cand(a, yz, i));
            assert(false);
        } else {
            assert(grid_at(s, a, yz) == i + 1);
            assert(sees(a, yz, a, b));
            assert(p.cand(a, b, grid_at(s, a, yz) - 1));
            assert(p.cand(a, yz, i));
            assert(false);
        }
    }
}

/// Under a tracking state, a digit left to one cell of its column
/// belongs there in the solution.
proof fn lemma_unique_is_solution_column(
    p: PossibleEntries,
    s: Seq<u8>,
    sol: Seq<u8>,
    b: int,
    i: int,
    a: int,
)
    requires
        tracks_solution(p, s, sol),
        0 <= a < 9,
        0 <= i < 9,
        0 <= b < 9,
        unique_in_column(p, b, i, a),
        grid_at(s, a, b) == 0,
    ensures
        grid_at(sol, a, b) == i + 1,
{
    reveal(tracks_solution);
    reveal(stale_marked);
    lemma_column_contains_all(sol, b, (i + 1) as u8);
    let xz = choose|x: int| 0 <= x < 9 && grid_at(sol, x, b) == i + 1;
    if xz != a {
        lemma_pack_of_unpack(xz, b);
        lemma_pack_of_unpack(a, b);
        if grid_at(s, xz, b) == 0 {
            assert(p.cand(xz, b, grid_at(sol, xz, b) - 1));
            assert(p.cand(xz, b, i));
            assert(false);
        } else {
            assert(grid_at(s, xz, b) == i + 1);
            assert(sees(xz, b, a, b));
            assert(p.cand(a, b, grid_at(s, xz, b) - 1));
            assert(p.cand(xz, b, i));
            assert(false);
        }
    }
}

/// Under a tracking state, a digit left to one cell of its block belongs
/// there in the solution.
proof fn lemma_unique_is_solution_block(
    p: PossibleEntries,
    s: Seq<u8>,
    sol: Seq<u8>,
    i: int,
    x: int,
    y: int,
)
    requires
        tracks_solution(p, s, sol),
        in_grid(x, y),
        0 <= i < 9,
        unique_in_block(p, i, x, y),
        grid_at(s, x, y) == 0,
    ensures
        grid_at(sol, x, y) == i + 1,
{
    reveal(tracks_solution);
    reveal(stale_marked);
    lemma_block_contains_all(sol, x / 3, y / 3, (i + 1) as u8);
    let (xz, yz) = choose|xz: int, yz: int|
        0 <= xz < 9 && 0 <= yz < 9 && xz / 3 == x / 3 && yz / 3 == y / 3 && #[trigger] grid_at(
            sol,
            xz,
            yz,
        ) == i + 1;
    if !(xz == x && yz == y) {
        lemma_pack_of_unpack(xz, yz);
        lemma_pack_of_unpack(x, y);
        assert(same_block(xz, yz, x, y));
        if grid_at(s, xz, yz) == 0 {
            assert(p.cand(xz, yz, grid_at(sol, xz, yz) - 1));
            assert(p.cand(xz, yz, i));
            assert(false);
        } else {
            assert(grid_at(s, xz, yz) == i + 1);
            assert(sees(xz, yz, x, y));
            assert(p.cand(x, y, grid_at(s, xz, yz) - 1));
            assert(p.cand(xz, yz, i));
            assert(false);
        }
    }
}

/// A mid-sweep state whose commits all agree with `sol` still tracks
/// `sol`.
proof fn lemma_tracks_carried(
    p0: PossibleEntries,
    g0: Seq<u8>,
    pa: PossibleEntries,
    sa: Seq<u8>,
    sol: Seq<u8>,
)
    requires
        tracks_solution(p0, g0, sol),
        tracker_pinned_delta(p0, g0, pa, sa),
        gains_only(g0, sa),
        gained_digits(g0, sa),
        extends(sol, sa),
        g0.len() == 81,
        sa.len() == 81,
    ensures
        tracks_solution(pa, sa, sol),
{
    reveal(tracks_solution);
    reveal(stale_marked);
    assert forall|x: int, y: int|
        in_grid(x, y) && #[trigger] grid_at(sa, x, y) == 0 implies pa.cand(
        x,
        y,
        grid_at(sol, x, y) - 1,
    ) by {
        lemma_pack_of_unpack(x, y);
        assert(grid_at(g0, x, y) == 0);
        assert(p0.cand(x, y, grid_at(sol, x, y) - 1));
    }
    assert forall|x: int, y: int, a: int, b: int|
        in_grid(x, y) && in_grid(a, b) && !(x == a && y == b) && sees(x, y, a, b) && grid_at(
            sa,
            x,
            y,
        ) != 0 && #[trigger] pa.cand(a, b, grid_at(sa, x, y) - 1) implies pa.cand(
        x,
        y,
        grid_at(sa, x, y) - 1,
    ) by {
        lemma_pack_of_unpack(x, y);
        lemma_pack_of_unpack(a, b);
        let d = grid_at(sa, x, y);
        assert(grid_at(sol, x, y) == d);
        if grid_at(sa, x, y) != grid_at(g0, x, y) {
            // (x, y) was committed: it is pinned to d
            assert(pa.cand(x, y, d - 1));
        } else {
            // (x, y) held d from the start
            if grid_at(sa, a, b) != grid_at(g0, a, b) {
                // (a, b) was committed and pinned; its bit names its own digit
                assert(grid_at(sa, a, b) == d);
                assert(grid_at(sol, a, b) == d);
                assert(false);
            } else {
                assert(p0.cand(a, b, d - 1));
                assert(p0.cand(x, y, d - 1));
                assert(pa.cand(x, y, d - 1));
            }
        }
    }
}

/// The pass has done line a's duty for digit `i + 1`: a unique blank
/// placement raised the count, and under tracking its cell is filled.
#[verifier::opaque]
spec fn line_handled(p0: PossibleEntries, g0: Seq<u8>, s: Seq<u8>, r: int, a: int, i: int) -> bool {
    (forall|b2: int|
        0 <= b2 < 9 && #[trigger] unique_in_line(p0, a, i, b2) && grid_at(g0, a, b2) == 0 ==> r
            >= 1) && (forall|sol: Seq<u8>, b2: int|
        #[trigger] tracks_solution(p0, g0, sol) && 0 <= b2 < 9 && #[trigger] unique_in_line(
            p0,
            a,
            i,
            b2,
        ) && grid_at(g0, a, b2) == 0 ==> grid_at(s, a, b2) != 0)
}

/// As `line_handled`, for column a.
#[verifier::opaque]
spec fn col_handled(p0: PossibleEntries, g0: Seq<u8>, s: Seq<u8>, r: int, a: int, i: int) -> bool {
    (forall|b2: int|
        0 <= b2 < 9 && #[trigger] unique_in_column(p0, a, i, b2) && grid_at(g0, b2, a) == 0 ==> r
            >= 1) && (forall|sol: Seq<u8>, b2: int|
        #[trigger] tracks_solution(p0, g0, sol) && 0 <= b2 < 9 && #[trigger] unique_in_column(
            p0,
            a,
            i,
            b2,
        ) && grid_at(g0, b2, a) == 0 ==> grid_at(s, b2, a) != 0)
}

/// As `line_handled`, for the block with corner (3 * (a % 3), 3 * (a / 3)).
#[verifier::opaque]
spec fn block_handled(p0: PossibleEntries, g0: Seq<u8>, s: Seq<u8>, r: int, a: int, i: int) -> bool {
    (forall|x2: int, y2: int|
        in_grid(x2, y2) && x2 / 3 == a % 3 && y2 / 3 == a / 3 && #[trigger] unique_in_block(
            p0,
            i,
            x2,
            y2,
        ) && grid_at(g0, x2, y2) == 0 ==> r >= 1) && (forall|sol: Seq<u8>, x2: int, y2: int|
        #[trigger] tracks_solution(p0, g0, sol) && in_grid(x2, y2) && x2 / 3 == a % 3 && y2 / 3 == a
            / 3 && #[trigger] unique_in_block(p0, i, x2, y2) && grid_at(g0, x2, y2) == 0
            ==> grid_at(s, x2, y2) != 0)
}

/// A handled unit stays handled as the board gains digits and the count
/// grows.
proof fn lemma_handled_mono(
    p0: PossibleEntries,
    g0: Seq<u8>,
    s: Seq<u8>,
    s2: Seq<u8>,
    r: int,
    r2: int,
    a: int,
    i: int,
)
    requires
        gains_only(s, s2),
        r2 >= r,
        0 <= a < 9,
    ensures
        line_handled(p0, g0, s, r, a, i) ==> line_handled(p0, g0, s2, r2, a, i),
        col_handled(p0, g0, s, r, a, i) ==> col_handled(p0, g0, s2, r2, a, i),
        block_handled(p0, g0, s, r, a, i) ==> block_handled(p0, g0, s2, r2, a, i),
{
    reveal(line_handled);
    reveal(col_handled);
    reveal(block_handled);
    if line_handled(p0, g0, s, r, a, i) {
        assert forall|sol: Seq<u8>, b2: int|
            #[trigger] tracks_solution(p0, g0, sol) && 0 <= b2 < 9 && #[trigger] unique_in_line(
                p0,
                a,
                i,
                b2,
            ) && grid_at(g0, a, b2) == 0 implies grid_at(s2, a, b2) != 0 by {
            lemma_pack_of_unpack(a, b2);
            assert(grid_at(s, a, b2) != 0);
        }
    }
    if col_handled(p0, g0, s, r, a, i) {
        assert forall|sol: Seq<u8>, b2: int|
            #[trigger] tracks_solution(p0, g0, sol) && 0 <= b2 < 9 && #[trigger] unique_in_column(
                p0,
                a,
                i,
                b2,
            ) && grid_at(g0, b2, a) == 0 implies grid_at(s2, b2, a) != 0 by {
            lemma_pack_of_unpack(b2, a);
            assert(grid_at(s, b2, a) != 0);
        }
    }
    if block_handled(p0, g0, s, r, a, i) {
        assert forall|sol: Seq<u8>, x2: int, y2: int|
            #[trigger] tracks_solution(p0, g0, sol) && in_grid(x2, y2) && x2 / 3 == a % 3 && y2 / 3
                == a / 3 && #[trigger] unique_in_block(p0, i, x2, y2) && grid_at(g0, x2, y2)
                == 0 implies grid_at(s2, x2, y2) != 0 by {
            lemma_pack_of_unpack(x2, y2);
            assert(grid_at(s, x2, y2) != 0);
        }
    }
}

/// The one cell of a unit that admits a digit under the scan snapshot,
/// derived from entry-level uniqueness in a tracking state: the line
/// form, fixing the scan marker.
proof fn lemma_line_placement_forced(
    p0: PossibleEntries,
    g0: Seq<u8>,
    pa: PossibleEntries,
    sa: Seq<u8>,
    s_cur: Seq<u8>,
    sol: Seq<u8>,
    al: int,
    i: int,
    b2: int,
    pos: int,
)
    requires
        tracks_solution(p0, g0, sol),
        tracker_pinned_delta(p0, g0, pa, sa),
        gains_only(g0, sa),
        gained_digits(g0, sa),
        gains_only(sa, s_cur),
        extends(sol, s_cur),
        g0.len() == 81,
        sa.len() == 81,
        s_cur.len() == 81,
        0 <= al < 9,
        0 <= i < 9,
        0 <= b2 < 9,
        unique_in_line(p0, al, i, b2),
        grid_at(g0, al, b2) == 0,
        grid_at(s_cur, al, b2) == 0,
        pos_marks_exactly(pa, al, i, pos, 9),
    ensures
        pos == b2,
{
    reveal(tracks_solution);
    lemma_pack_of_unpack(al, b2);
    assert forall|c: int| 0 <= c < 81 && #[trigger] sa[c] != 0 implies sol[c] == sa[c] by {
        assert(s_cur[c] == sa[c]);
    }
    assert(extends(sol, sa));
    lemma_unique_is_solution_line(p0, g0, sol, al, i, b2);
    assert(grid_at(sa, al, b2) == 0) by {
        if grid_at(sa, al, b2) != 0 {
            assert(s_cur[b2 * 9 + al] == sa[b2 * 9 + al]);
        }
    }
    assert(pa.cand(al, b2, i));
    assert forall|b3: int| 0 <= b3 < 9 && b3 != b2 implies !pa.cand(al, b3, i) by {
        lemma_pack_of_unpack(al, b3);
        if pa.cand(al, b3, i) {
            if grid_at(sa, al, b3) != grid_at(g0, al, b3) {
                assert(grid_at(sa, al, b3) == i + 1);
                assert(grid_at(sol, al, b3) == i + 1);
                assert(grid_at(sol, al, b2) == i + 1);
                assert(sees(al, b2, al, b3));
                assert(false);
            } else {
                assert(p0.cand(al, b3, i));
                assert(false);
            }
        }
    }
    assert(unique_in_line(pa, al, i, b2));
    lemma_pos_of_unique(pa, al, i, pos, b2);
}

/// As the line form, for a column.
proof fn lemma_col_placement_forced(
    p0: PossibleEntries,
    g0: Seq<u8>,
    pa: PossibleEntries,
    sa: Seq<u8>,
    s_cur: Seq<u8>,
    sol: Seq<u8>,
    al: int,
    i: int,
    b2: int,
    pos: int,
)
    requires
        tracks_solution(p0, g0, sol),
        tracker_pinned_delta(p0, g0, pa, sa),
        gains_only(g0, sa),
        gained_digits(g0, sa),
        gains_only(sa, s_cur),
        extends(sol, s_cur),
        g0.len() == 81,
        sa.len() == 81,
        s_cur.len() == 81,
        0 <= al < 9,
        0 <= i < 9,
        0 <= b2 < 9,
        unique_in_column(p0, al, i, b2),
        grid_at(g0, b2, al) == 0,
        grid_at(s_cur, b2, al) == 0,
        col_marks_exactly(pa, al, i, pos, 9),
    ensures
        pos == b2,
{
    reveal(tracks_solution);
    lemma_pack_of_unpack(b2, al);
    assert forall|c: int| 0 <= c < 81 && #[trigger] sa[c] != 0 implies sol[c] == sa[c] by {
        assert(s_cur[c] == sa[c]);
    }
    assert(extends(sol, sa));
    lemma_unique_is_solution_column(p0, g0, sol, al, i, b2);
    assert(grid_at(sa, b2, al) == 0) by {
        if grid_at(sa, b2, al) != 0 {
            assert(s_cur[al * 9 + b2] == sa[al * 9 + b2]);
        }
    }
    assert(pa.cand(b2, al, i));
    assert forall|b3: int| 0 <= b3 < 9 && b3 != b2 implies !pa.cand(b3, al, i) by {
        lemma_pack_of_unpack(b3, al);
        if pa.cand(b3, al, i) {
            if grid_at(sa, b3, al) != grid_at(g0, b3, al) {
                assert(grid_at(sa, b3, al) == i + 1);
                assert(grid_at(sol, b3, al) == i + 1);
                assert(grid_at(sol, b2, al) == i + 1);
                assert(sees(b2, al, b3, al));
                assert(false);
            } else {
                assert(p0.cand(b3, al, i));
                assert(false);
            }
        }
    }
    assert(unique_in_column(pa, al, i, b2));
    lemma_col_of_unique(pa, al, i, pos, b2);
}

/// As the line form, for a block.
proof fn lemma_block_placement_forced(
    p0: PossibleEntries,
    g0: Seq<u8>,
    pa: PossibleEntries,
    sa: Seq<u8>,
    s_cur: Seq<u8>,
    sol: Seq<u8>,
    u: int,
    v: int,
    i: int,
    x2: int,
    y2: int,
    px: int,
    py: int,
)
    requires
        tracks_solution(p0, g0, sol),
        tracker_pinned_delta(p0, g0, pa, sa),
        gains_only(g0, sa),
        gained_digits(g0, sa),
        gains_only(sa, s_cur),
        extends(sol, s_cur),
        g0.len() == 81,
        sa.len() == 81,
        s_cur.len() == 81,
        in_grid(x2, y2),
        0 <= i < 9,
        0 <= u < 3,
        0 <= v < 3,
        x2 / 3 == u,
        y2 / 3 == v,
        unique_in_block(p0, i, x2, y2),
        grid_at(g0, x2, y2) == 0,
        grid_at(s_cur, x2, y2) == 0,
        block_marks_exactly(pa, u, v, i, px, py, 9),
    ensures
        px == x2 && py == y2,
{
    reveal(tracks_solution);
    lemma_pack_of_unpack(x2, y2);
    assert forall|c: int| 0 <= c < 81 && #[trigger] sa[c] != 0 implies sol[c] == sa[c] by {
        assert(s_cur[c] == sa[c]);
    }
    assert(extends(sol, sa));
    lemma_unique_is_solution_block(p0, g0, sol, i, x2, y2);
    assert(grid_at(sa, x2, y2) == 0) by {
        if grid_at(sa, x2, y2) != 0 {
            assert(s_cur[y2 * 9 + x2] == sa[y2 * 9 + x2]);
        }
    }
    assert(pa.cand(x2, y2, i));
    assert forall|x3: int, y3: int|
        in_grid(x3, y3) && same_block(x3, y3, x2, y2) && !(x3 == x2 && y3 == y2) implies !pa.cand(
        x3,
        y3,
        i,
    ) by {
        lemma_pack_of_unpack(x3, y3);
        if pa.cand(x3, y3, i) {
            if grid_at(sa, x3, y3) != grid_at(g0, x3, y3) {
                assert(grid_at(sa, x3, y3) == i + 1);
                assert(grid_at(sol, x3, y3) == i + 1);
                assert(grid_at(sol, x2, y2) == i + 1);
                assert(sees(x2, y2, x3, y3));
                assert(false);
            } else {
                assert(p0.cand(x3, y3, i));
                assert(false);
            }
        }
    }
    assert(unique_in_block(pa, i, x2, y2));
    lemma_block_of_unique(pa, u, v, i, px, py, x2, y2);
}

/// A commit justified by a unit-unique scan writes the tracked
/// solution's digit, so the new board still lies inside it: line form.
proof fn lemma_commit_extends_line(
    p0: PossibleEntries,
    g0: Seq<u8>,
    pa: PossibleEntries,
    sa: Seq<u8>,
    gprev: Seq<u8>,
    s_new: Seq<u8>,
    sol: Seq<u8>,
    al: int,
    i: int,
    cy: int,
)
    requires
        tracks_solution(p0, g0, sol),
        tracker_pinned_delta(p0, g0, pa, sa),
        gains_only(g0, sa),
        gained_digits(g0, sa),
        gains_only(sa, gprev),
        extends(sol, gprev),
        g0.len() == 81,
        sa.len() == 81,
        gprev.len() == 81,
        0 <= al < 9,
        0 <= i < 9,
        0 <= cy < 9,
        unique_in_line(pa, al, i, cy),
        grid_at(gprev, al, cy) == 0,
        s_new == gprev.update(cy * 9 + al, (i + 1) as u8),
    ensures
        extends(sol, s_new),
{
    lemma_pack_of_unpack(al, cy);
    assert forall|c: int| 0 <= c < 81 && #[trigger] sa[c] != 0 implies sol[c] == sa[c] by {
        assert(gprev[c] == sa[c]);
    }
    assert(extends(sol, sa));
    assert(grid_at(sa, al, cy) == 0) by {
        if grid_at(sa, al, cy) != 0 {
            assert(gprev[cy * 9 + al] == sa[cy * 9 + al]);
        }
    }
    lemma_tracks_carried(p0, g0, pa, sa, sol);
    lemma_unique_is_solution_line(pa, sa, sol, al, i, cy);
    assert forall|c: int| 0 <= c < 81 && #[trigger] s_new[c] != 0 implies sol[c] == s_new[c] by {
        if c != cy * 9 + al {
            assert(s_new[c] == gprev[c]);
        }
    }
}

/// As the line form, for a column.
proof fn lemma_commit_extends_col(
    p0: PossibleEntries,
    g0: Seq<u8>,
    pa: PossibleEntries,
    sa: Seq<u8>,
    gprev: Seq<u8>,
    s_new: Seq<u8>,
    sol: Seq<u8>,
    al: int,
    i: int,
    cx: int,
)
    requires
        tracks_solution(p0, g0, sol),
        tracker_pinned_delta(p0, g0, pa, sa),
        gains_only(g0, sa),
        gained_digits(g0, sa),
        gains_only(sa, gprev),
        extends(sol, gprev),
        g0.len() == 81,
        sa.len() == 81,
        gprev.len() == 81,
        0 <= al < 9,
        0 <= i < 9,
        0 <= cx < 9,
        unique_in_column(pa, al, i, cx),
        grid_at(gprev, cx, al) == 0,
        s_new == gprev.update(al * 9 + cx, (i + 1) as u8),
    ensures
        extends(sol, s_new),
{
    lemma_pack_of_unpack(cx, al);
    assert forall|c: int| 0 <= c < 81 && #[trigger] sa[c] != 0 implies sol[c] == sa[c] by {
        assert(gprev[c] == sa[c]);
    }
    assert(extends(sol, sa));
    assert(grid_at(sa, cx, al) == 0) by {
        if grid_at(sa, cx, al) != 0 {
            assert(gprev[al * 9 + cx] == sa[al * 9 + cx]);
        }
    }
    lemma_tracks_carried(p0, g0, pa, sa, sol);
    lemma_unique_is_solution_column(pa, sa, sol, al, i, cx);
    assert forall|c: int| 0 <= c < 81 && #[trigger] s_new[c] != 0 implies sol[c] == s_new[c] by {
        if c != al * 9 + cx {
            assert(s_new[c] == gprev[c]);
        }
    }
}

/// As the line form, for a block.
proof fn lemma_commit_extends_block(
    p0: PossibleEntries,
    g0: Seq<u8>,
    pa: PossibleEntries,
    sa: Seq<u8>,
    gprev: Seq<u8>,
    s_new: Seq<u8>,
    sol: Seq<u8>,
    i: int,
    cx: int,
    cy: int,
)
    requires
        tracks_solution(p0, g0, sol),
        tracker_pinned_delta(p0, g0, pa, sa),
        gains_only(g0, sa),
        gained_digits(g0, sa),
        gains_only(sa, gprev),
        extends(sol, gprev),
        g0.len() == 81,
        sa.len() == 81,
        gprev.len() == 81,
        in_grid(cx, cy),
        0 <= i < 9,
        unique_in_block(pa, i, cx, cy),
        grid_at(gprev, cx, cy) == 0,
        s_new == gprev.update(cy * 9 + cx, (i + 1) as u8),
    ensures
        extends(sol, s_new),
{
    lemma_pack_of_unpack(cx, cy);
    assert forall|c: int| 0 <= c < 81 && #[trigger] sa[c] != 0 implies sol[c] == sa[c] by {
        assert(gprev[c] == sa[c]);
    }
    assert(extends(sol, sa));
    assert(grid_at(sa, cx, cy) == 0) by {
        if grid_at(sa, cx, cy) != 0 {
            assert(gprev[cy * 9 + cx] == sa[cy * 9 + cx]);
        }
    }
    lemma_tracks_carried(p0, g0, pa, sa, sol);
    lemma_unique_is_solution_block(pa, sa, sol, i, cx, cy);
    assert forall|c: int| 0 <= c < 81 && #[trigger] s_new[c] != 0 implies sol[c] == s_new[c] by {
        if c != cy * 9 + cx {
            assert(s_new[c] == gprev[c]);
        }
    }
}

/// One committed cell carries all the sweep invariants forward.
proof fn lemma_commit_preserves(
    p0: PossibleEntries,
    g0: Seq<u8>,
    pa: PossibleEntries,
    sa: Seq<u8>,
    p1: PossibleEntries,
    g1: Seq<u8>,
    p2: PossibleEntries,
    g2: Seq<u8>,
    cx: int,
    cy: int,
    i: int,
)
    requires
        g0.len() == 81,
        g1.len() == 81,
        in_grid(cx, cy),
        0 <= i < 9,
        gains_only(g0, g1),
        gained_digits(g0, g1),
        gained_candidates(p0, g0, g1),
        tracker_pinned_delta(p0, g0, p1, g1),
        tracker_pinned_delta(p0, g0, pa, sa),
        gains_only(sa, g1),
        pa.cand(cx, cy, i),
        grid_at(g1, cx, cy) == 0,
        g2 == g1.update(cy * 9 + cx, (i + 1) as u8),
        forall|a: int, b: int, k: int|
            in_grid(a, b) && 0 <= k < 9 ==> #[trigger] p2.cand(a, b, k) == (if a == cx && b == cy {
                k == i
            } else {
                p1.cand(a, b, k)
            }),
    ensures
        gains_only(g0, g2),
        gained_digits(g0, g2),
        gained_candidates(p0, g0, g2),
        tracker_pinned_delta(p0, g0, p2, g2),
        gains_only(sa, g2),
        diff_upto(g0, g2, 81) == diff_upto(g0, g1, 81) + 1,
{
    lemma_pack_of_unpack(cx, cy);
    let cc = cy * 9 + cx;
    assert(g0[cc] == 0) by {
        if g0[cc] != 0 {
            assert(g1[cc] == g0[cc]);
        }
    }
    assert(sa[cc] == 0) by {
        if sa[cc] != 0 {
            assert(g1[cc] == sa[cc]);
        }
    }
    assert(p0.cand(cx, cy, i)) by {
        assert(grid_at(sa, cx, cy) == 0);
    }
    lemma_diff_update(g0, g1, cc, (i + 1) as u8, 81);
    assert forall|a: int, b: int| in_grid(a, b) implies #[trigger] grid_at(g2, a, b) == (if a == cx
        && b == cy {
        (i + 1) as u8
    } else {
        grid_at(g1, a, b)
    }) by {
        lemma_pack_of_unpack(a, b);
    }
    assert forall|c: int| 0 <= c < 81 && #[trigger] g0[c] != 0 implies g2[c] == g0[c] by {
        assert(g1[c] == g0[c]);
    }
    assert forall|c: int| 0 <= c < 81 && #[trigger] sa[c] != 0 implies g2[c] == sa[c] by {
        assert(g1[c] == sa[c]);
    }
    assert forall|x: int, y: int|
        in_grid(x, y) && grid_at(g2, x, y) != #[trigger] grid_at(g0, x, y) implies p0.cand(
        x,
        y,
        grid_at(g2, x, y) - 1,
    ) by {
        lemma_pack_of_unpack(x, y);
        if !(x == cx && y == cy) {
            assert(grid_at(g2, x, y) == grid_at(g1, x, y));
        }
    }
}

/// A board together with the candidate tracker derived from it.
pub struct SudokuHumanLikeSolver {
    pub p: PossibleEntries,
    pub s: Sudoku,
}

impl SudokuHumanLikeSolver {
    /// Builds a solver for `s`: a fresh tracker with every filled cell
    /// pinned to its given digit and every blank cell fully open.
    pub fn from_sudoku(s: Sudoku) -> (r: Self)
        requires
            grid_wf(s@),
        ensures
            r.s@ == s@,
            forall|x: int, y: int, k: int|
                in_grid(x, y) && 0 <= k < 9 ==> #[trigger] r.p.cand(x, y, k) == (grid_at(s@, x, y)
                    == 0 || k == grid_at(s@, x, y) - 1),
            forall|sol: Seq<u8>|
                valid_complete(sol) && extends(sol, s@) ==> #[trigger] tracks_solution(
                    r.p,
                    s@,
                    sol,
                ),
    {
        let mut p = PossibleEntries::default();
        let mut x: usize = 0;
        while x < 9
            invariant
                x <= 9,
                grid_wf(s@),
                forall|a: int, b: int, k: int|
                    in_grid(a, b) && 0 <= k < 9 ==> #[trigger] p.cand(a, b, k) == (a >= x
                        || grid_at(s@, a, b) == 0 || k == grid_at(s@, a, b) - 1),
            decreases 9 - x,
        {
            let mut y: usize = 0;
            while y < 9
                invariant
                    x < 9,
                    y <= 9,
                    grid_wf(s@),
                    forall|a: int, b: int, k: int|
                        in_grid(a, b) && 0 <= k < 9 ==> #[trigger] p.cand(a, b, k) == (a * 9 + b
                            >= x * 9 + y || grid_at(s@, a, b) == 0 || k == grid_at(s@, a, b) - 1),
                decreases 9 - y,
            {
                let v = s.get(x, y);
                p.pin_cell(v, x, y);
                y += 1;
            }
            x += 1;
        }
        let r = SudokuHumanLikeSolver { p, s };
        proof {
            reveal(tracks_solution);
            reveal(stale_marked);
            assert forall|sol: Seq<u8>|
                valid_complete(sol) && extends(sol, s@) implies #[trigger] tracks_solution(
                r.p,
                s@,
                sol,
            ) by {
                assert forall|x: int, y: int|
                    in_grid(x, y) && #[trigger] grid_at(s@, x, y) == 0 implies r.p.cand(
                    x,
                    y,
                    grid_at(sol, x, y) - 1,
                ) by {
                    lemma_pack_of_unpack(x, y);
                }
            }
        }
        r
    }

    /// One sole-candidate pass: refreshes the tracker by full elimination
    /// against the current board, then commits, to every still-blank cell
    /// with exactly one candidate left, that candidate. Returns how many
    /// cells were committed. On a fully solved valid grid the pass
    /// commits nothing.
    pub fn sole_candidate(&mut self) -> (count: i32)
        requires
            grid_wf(old(self).s@),
        ensures
            grid_wf(final(self).s@),
            final(self).s@.len() == 81,
            forall|a: int, b: int, k: int|
                in_grid(a, b) && 0 <= k < 9 ==> #[trigger] final(self).p.cand(a, b, k) == (old(
                    self,
                ).p.cand(a, b, k) && !eliminated(old(self).s@, a, b, k)),
            forall|x: int, y: int|
                in_grid(x, y) ==> #[trigger] grid_at(final(self).s@, x, y) == (if grid_at(
                    old(self).s@,
                    x,
                    y,
                ) == 0 && final(self).p.cand_count(x, y) == 1 {
                    final(self).p.sole_digit(x, y)
                } else {
                    grid_at(old(self).s@, x, y)
                }),
            count == diff_count(old(self).s@, final(self).s@),
            0 <= count <= 81,
            forall|c: int|
                0 <= c < 81 && #[trigger] old(self).s@[c] != 0 ==> final(self).s@[c] == old(
                    self,
                ).s@[c],
            forall|c: int|
                0 <= c < 81 && #[trigger] old(self).s@[c] != final(self).s@[c] ==> old(self).s@[c]
                    == 0 && 1 <= final(self).s@[c] <= 9,
            valid_complete(old(self).s@) ==> count == 0 && final(self).s@ == old(self).s@,
            forall|sol: Seq<u8>|
                valid_complete(sol) && extends(sol, old(self).s@) && tracker_admits(
                    old(self).s@,
                    old(self).p,
                    sol,
                ) ==> #[trigger] tracks_solution(final(self).p, final(self).s@, sol),
    {
        let ghost g0 = self.s@;
        self.p.update_field(&self.s);
        let ghost p1 = self.p;
        let mut result: i32 = 0;
        proof {
            lemma_diff_zero(g0, self.s@, 81);
        }
        let mut x: usize = 0;
        while x < 9
            invariant
                x <= 9,
                self.p == p1,
                g0 == old(self).s@,
                grid_wf(g0),
                grid_wf(self.s@),
                self.s@.len() == 81,
                forall|a: int, b: int, k: int|
                    in_grid(a, b) && 0 <= k < 9 ==> #[trigger] p1.cand(a, b, k) == (old(
                        self,
                    ).p.cand(a, b, k) && !eliminated(g0, a, b, k)),
                forall|a: int, b: int|
                    in_grid(a, b) && a * 9 + b < x * 9 ==> #[trigger] grid_at(self.s@, a, b) == (
                    if grid_at(g0, a, b) == 0 && p1.cand_count(a, b) == 1 {
                        p1.sole_digit(a, b)
                    } else {
                        grid_at(g0, a, b)
                    }),
                forall|a: int, b: int|
                    in_grid(a, b) && a * 9 + b >= x * 9 ==> #[trigger] grid_at(self.s@, a, b)
                        == grid_at(g0, a, b),
                result == diff_upto(g0, self.s@, 81),
                0 <= result <= 81,
            decreases 9 - x,
        {
            let mut y: usize = 0;
            while y < 9
                invariant
                    x < 9,
                    y <= 9,
                    self.p == p1,
                    g0 == old(self).s@,
                    grid_wf(g0),
                    grid_wf(self.s@),
                    self.s@.len() == 81,
                    forall|a: int, b: int, k: int|
                        in_grid(a, b) && 0 <= k < 9 ==> #[trigger] p1.cand(a, b, k) == (old(
                            self,
                        ).p.cand(a, b, k) && !eliminated(g0, a, b, k)),
                    forall|a: int, b: int|
                        in_grid(a, b) && a * 9 + b < x * 9 + y ==> #[trigger] grid_at(
                            self.s@,
                            a,
                            b,
                        ) == (if grid_at(g0, a, b) == 0 && p1.cand_count(a, b) == 1 {
                            p1.sole_digit(a, b)
                        } else {
                            grid_at(g0, a, b)
                        }),
                    forall|a: int, b: int|
                        in_grid(a, b) && a * 9 + b >= x * 9 + y ==> #[trigger] grid_at(
                            self.s@,
                            a,
                            b,
                        ) == grid_at(g0, a, b),
                    result == diff_upto(g0, self.s@, 81),
                    0 <= result <= 81,
                decreases 9 - y,
            {
                let v = self.p.get_unique_value(x, y);
                let orig = self.s.get(x, y);
                if v != 0 && orig == 0 {
                    let ghost cur = self.s@;
                    self.s.set(x, y, v);
                    result += 1;
                    proof {
                        lemma_pack_of_unpack(x as int, y as int);
                        lemma_diff_update(g0, cur, y as int * 9 + x as int, v, 81);
                        lemma_diff_bounds(g0, self.s@, 81);
                        assert forall|a: int, b: int|
                            in_grid(a, b) && a * 9 + b >= x * 9 + y + 1 implies #[trigger] grid_at(
                            self.s@,
                            a,
                            b,
                        ) == grid_at(g0, a, b) by {
                            lemma_pack_of_unpack(a, b);
                            lemma_pack_of_unpack(b, a);
                            assert(b * 9 + a != y as int * 9 + x as int);
                            assert(grid_at(self.s@, a, b) == grid_at(cur, a, b));
                            assert(grid_at(cur, a, b) == grid_at(g0, a, b));
                        }
                        assert forall|a: int, b: int|
                            in_grid(a, b) && a * 9 + b < x * 9 + y + 1 implies #[trigger] grid_at(
                            self.s@,
                            a,
                            b,
                        ) == (if grid_at(g0, a, b) == 0 && p1.cand_count(a, b) == 1 {
                            p1.sole_digit(a, b)
                        } else {
                            grid_at(g0, a, b)
                        }) by {
                            lemma_pack_of_unpack(a, b);
                            lemma_pack_of_unpack(b, a);
                            if a == x as int && b == y as int {
                                assert(grid_at(self.s@, a, b) == v);
                                assert(grid_at(cur, a, b) == grid_at(g0, a, b));
                                assert(grid_at(g0, a, b) == 0);
                                assert(p1.cand_count(a, b) == 1);
                                assert(v == p1.sole_digit(a, b));
                            } else {
                                assert(b * 9 + a != y as int * 9 + x as int);
                                assert(grid_at(self.s@, a, b) == grid_at(cur, a, b));
                                assert(a * 9 + b < x * 9 + y);
                            }
                        }
                    }
                } else {
                    proof {
                        assert forall|a: int, b: int|
                            in_grid(a, b) && a * 9 + b < x * 9 + y + 1 implies #[trigger] grid_at(
                            self.s@,
                            a,
                            b,
                        ) == (if grid_at(g0, a, b) == 0 && p1.cand_count(a, b) == 1 {
                            p1.sole_digit(a, b)
                        } else {
                            grid_at(g0, a, b)
                        }) by {
                            if a == x as int && b == y as int {
                                assert(grid_at(self.s@, a, b) == grid_at(g0, a, b));
                                if grid_at(g0, a, b) == 0 && p1.cand_count(a, b) == 1 {
                                    assert(v != 0);
                                    assert(orig == grid_at(g0, a, b));
                                    assert(false);
                                }
                            } else {
                                lemma_pack_of_unpack(b, a);
                                assert(a * 9 + b < x * 9 + y);
                            }
                        }
                    }
                }
                y += 1;
            }
            x += 1;
        }
        proof {
            assert forall|c: int| 0 <= c < 81 implies self.s@[c] == (if g0[c] == 0
                && p1.cand_count(c % 9, c / 9) == 1 {
                p1.sole_digit(c % 9, c / 9)
            } else {
                g0[c]
            }) by {
                lemma_unpack_of_pack(c);
                let a = c % 9;
                let b = c / 9;
                assert(a * 9 + b < 81);
                assert(grid_at(self.s@, a, b) == (if grid_at(g0, a, b) == 0 && p1.cand_count(a, b)
                    == 1 {
                    p1.sole_digit(a, b)
                } else {
                    grid_at(g0, a, b)
                }));
            }
            assert forall|c: int|
                0 <= c < 81 && #[trigger] g0[c] != self.s@[c] implies g0[c] == 0 && 1 <= self.s@[c]
                <= 9 by {
                lemma_unpack_of_pack(c);
                let a = c % 9;
                let b = c / 9;
                if g0[c] == 0 && p1.cand_count(a, b) == 1 {
                    p1.lemma_sole_exists(a, b);
                }
            }
            if valid_complete(g0) {
                assert forall|c: int| 0 <= c < 81 implies self.s@[c] == g0[c] by {
                    lemma_unpack_of_pack(c);
                }
                assert(self.s@ =~= g0);
                lemma_diff_zero(g0, self.s@, 81);
            }
            reveal(tracks_solution);
            reveal(stale_marked);
            assert forall|sol: Seq<u8>|
                valid_complete(sol) && extends(sol, g0) && tracker_admits(
                    g0,
                    old(self).p,
                    sol,
                ) implies #[trigger] tracks_solution(self.p, self.s@, sol) by {
                assert forall|x: int, y: int|
                    in_grid(x, y) && #[trigger] grid_at(g0, x, y) == 0 implies p1.cand(
                    x,
                    y,
                    grid_at(sol, x, y) - 1,
                ) by {
                    lemma_pack_of_unpack(x, y);
                    let k = grid_at(sol, x, y) - 1;
                    assert(old(self).p.cand(x, y, k));
                    if eliminated(g0, x, y, k) {
                        let (x2, y2) = choose|x2: int, y2: int|
                            in_grid(x2, y2) && #[trigger] grid_at(g0, x2, y2) == k + 1
                                && #[trigger] sees(x2, y2, x, y);
                        lemma_pack_of_unpack(x2, y2);
                        assert(grid_at(sol, x2, y2) == k + 1);
                        assert(!(x2 == x && y2 == y));
                        assert(false);
                    }
                }
                assert forall|x: int, y: int|
                    in_grid(x, y) && grid_at(self.s@, x, y) != #[trigger] grid_at(
                        g0,
                        x,
                        y,
                    ) implies grid_at(self.s@, x, y) == grid_at(sol, x, y) by {
                    lemma_pack_of_unpack(x, y);
                    assert(grid_at(g0, x, y) == 0 && p1.cand_count(x, y) == 1);
                    p1.lemma_sole_exists(x, y);
                    assert(p1.cand(x, y, grid_at(sol, x, y) - 1));
                    p1.lemma_single_candidate(
                        x,
                        y,
                        p1.sole_digit(x, y) - 1,
                        grid_at(sol, x, y) - 1,
                    );
                }
                assert forall|c: int| 0 <= c < 81 && #[trigger] self.s@[c] != 0 implies sol[c]
                    == self.s@[c] by {
                    lemma_unpack_of_pack(c);
                    let x = c % 9;
                    let y = c / 9;
                    if grid_at(self.s@, x, y) != grid_at(g0, x, y) {
                        assert(grid_at(self.s@, x, y) == grid_at(sol, x, y));
                    } else {
                        assert(g0[c] != 0);
                    }
                }
                assert(extends(sol, self.s@));
                assert forall|x: int, y: int|
                    in_grid(x, y) && #[trigger] grid_at(self.s@, x, y) == 0 implies p1.cand(
                    x,
                    y,
                    grid_at(sol, x, y) - 1,
                ) by {
                    lemma_pack_of_unpack(x, y);
                    assert(grid_at(g0, x, y) == 0);
                }
                assert forall|x: int, y: int, aa: int, bb: int|
                    in_grid(x, y) && in_grid(aa, bb) && !(x == aa && y == bb) && sees(x, y, aa, bb)
                        && grid_at(self.s@, x, y) != 0 && #[trigger] p1.cand(
                        aa,
                        bb,
                        grid_at(self.s@, x, y) - 1,
                    ) implies p1.cand(x, y, grid_at(self.s@, x, y) - 1) by {
                    lemma_pack_of_unpack(x, y);
                    lemma_pack_of_unpack(aa, bb);
                    let d = grid_at(self.s@, x, y);
                    if grid_at(g0, x, y) != 0 {
                        assert(grid_at(g0, x, y) == d);
                        assert(eliminated(g0, aa, bb, d - 1));
                        assert(false);
                    } else {
                        assert(p1.cand_count(x, y) == 1);
                        p1.lemma_sole_exists(x, y);
                    }
                }
                assert(tracks_solution(self.p, self.s@, sol));
            }
        }
        result
    }

    /// Commits digit `i + 1` to cell (cx, cy) when that cell is still
    /// blank: the board takes the digit and the tracker is pinned to it.
    fn commit_if_blank(&mut self, i: usize, cx: usize, cy: usize) -> (committed: bool)
        requires
            i < 9,
            cx < 9,
            cy < 9,
            grid_wf(old(self).s@),
        ensures
            grid_wf(final(self).s@),
            final(self).s@.len() == 81,
            committed <==> grid_at(old(self).s@, cx as int, cy as int) == 0,
            committed ==> final(self).s@ == old(self).s@.update(cy * 9 + cx, (i + 1) as u8),
            committed ==> forall|a: int, b: int, k: int|
                in_grid(a, b) && 0 <= k < 9 ==> #[trigger] final(self).p.cand(a, b, k) == (if a
                    == cx && b == cy {
                    k == i
                } else {
                    old(self).p.cand(a, b, k)
                }),
            !committed ==> *final(self) == *old(self),
    {
        if self.s.get(cx, cy) == 0 {
            self.p.pin_cell((i + 1) as u8, cx, cy);
            self.s.set(cx, cy, (i + 1) as u8);
            true
        } else {
            false
        }
    }


    /// One line-commit attempt of the unique-candidate pass: digit
    /// `i + 1` goes to (a, pos) when the scan found it unique there and
    /// the cell is still blank. Returns the updated commit count.
    #[verifier::rlimit(100)]
    fn attempt_line(
        &mut self,
        a: usize,
        i: usize,
        pos: usize,
        result: i32,
        Ghost(p0): Ghost<PossibleEntries>,
        Ghost(g0): Ghost<Seq<u8>>,
        Ghost(pa): Ghost<PossibleEntries>,
        Ghost(sa): Ghost<Seq<u8>>,
    ) -> (r2: i32)
        requires
            a < 9,
            i < 9,
            g0.len() == 81,
            grid_wf(g0),
            sa.len() == 81,
            grid_wf(old(self).s@),
            old(self).s@.len() == 81,
            gains_only(g0, old(self).s@),
            gained_digits(g0, old(self).s@),
            gained_candidates(p0, g0, old(self).s@),
            tracker_pinned_delta(p0, g0, old(self).p, old(self).s@),
            tracker_pinned_delta(p0, g0, pa, sa),
            gains_only(g0, sa),
            gained_digits(g0, sa),
            gains_only(sa, old(self).s@),
            result == diff_upto(g0, old(self).s@, 81),
            0 <= result <= 81,
            result == 0 ==> old(self).p == p0 && old(self).s@ == g0 && pa == p0 && sa == g0,
            forall|sol: Seq<u8>| #[trigger]
                tracks_solution(p0, g0, sol) ==> extends(sol, old(self).s@),
            pos_marks_exactly(pa, a as int, i as int, pos as int, 9),
        ensures
            grid_wf(final(self).s@),
            final(self).s@.len() == 81,
            gains_only(g0, final(self).s@),
            gained_digits(g0, final(self).s@),
            gained_candidates(p0, g0, final(self).s@),
            tracker_pinned_delta(p0, g0, final(self).p, final(self).s@),
            gains_only(sa, final(self).s@),
            gains_only(old(self).s@, final(self).s@),
            r2 == diff_upto(g0, final(self).s@, 81),
            result <= r2 <= 81,
            r2 == 0 ==> final(self).p == p0 && final(self).s@ == g0,
            r2 >= 1 ==> result >= 1 || some_unique_blank(p0, g0),
            forall|sol: Seq<u8>| #[trigger]
                tracks_solution(p0, g0, sol) ==> extends(sol, final(self).s@),
            line_handled(p0, g0, final(self).s@, r2 as int, a as int, i as int),
    {
        let mut result2 = result;
        if pos < 9 {
            let cy = pos;
            let ghost pprev = self.p;
            let ghost gprev = self.s@;
            if self.commit_if_blank(i, a, cy) {
                result2 += 1;
                proof {
                    lemma_pack_of_unpack(a as int, cy as int);
                    assert(unique_in_line(pa, a as int, i as int, cy as int)) by {
                        reveal(pos_marks_exactly);
                    }
                    lemma_commit_preserves(
                        p0,
                        g0,
                        pa,
                        sa,
                        pprev,
                        gprev,
                        self.p,
                        self.s@,
                        a as int,
                        cy as int,
                        i as int,
                    );
                    lemma_diff_bounds(g0, self.s@, 81);
                    if result == 0 {
                        reveal(some_unique_blank);
                        assert(unique_in_line(p0, a as int, i as int, cy as int));
                        assert(grid_at(g0, a as int, cy as int) == 0);
                        assert(some_unique_blank(p0, g0));
                    }
                    assert forall|sol: Seq<u8>| #[trigger] tracks_solution(p0, g0, sol) implies
                        extends(sol, self.s@) by {
                        assert(extends(sol, gprev));
                        lemma_commit_extends_line(
                            p0,
                            g0,
                            pa,
                            sa,
                            gprev,
                            self.s@,
                            sol,
                            a as int,
                            i as int,
                            cy as int,
                        );
                    }
                }
            }
        }
        proof {
            assert forall|b2: int|
                0 <= b2 < 9 && #[trigger] unique_in_line(p0, a as int, i as int, b2) && grid_at(
                    g0,
                    a as int,
                    b2,
                ) == 0 implies result2 >= 1 by {
                if result2 == 0 {
                    lemma_pos_of_unique(pa, a as int, i as int, pos as int, b2);
                    assert(false);
                }
            }
            assert forall|sol: Seq<u8>, b2: int|
                #[trigger] tracks_solution(p0, g0, sol) && 0 <= b2 < 9 && #[trigger] unique_in_line(
                    p0,
                    a as int,
                    i as int,
                    b2,
                ) && grid_at(g0, a as int, b2) == 0 implies grid_at(self.s@, a as int, b2)
                != 0 by {
                if grid_at(self.s@, a as int, b2) == 0 {
                    lemma_pack_of_unpack(a as int, b2);
                    assert(extends(sol, self.s@));
                    lemma_line_placement_forced(
                        p0,
                        g0,
                        pa,
                        sa,
                        self.s@,
                        sol,
                        a as int,
                        i as int,
                        b2,
                        pos as int,
                    );
                    assert(false);
                }
            }
            assert(line_handled(p0, g0, self.s@, result2 as int, a as int, i as int)) by {
                reveal(line_handled);
            }
        }
        result2
    }

    /// As `attempt_line`, for column a with the cell at (pos, a).
    #[verifier::rlimit(100)]
    fn attempt_col(
        &mut self,
        a: usize,
        i: usize,
        pos: usize,
        result: i32,
        Ghost(p0): Ghost<PossibleEntries>,
        Ghost(g0): Ghost<Seq<u8>>,
        Ghost(pa): Ghost<PossibleEntries>,
        Ghost(sa): Ghost<Seq<u8>>,
    ) -> (r2: i32)
        requires
            a < 9,
            i < 9,
            g0.len() == 81,
            grid_wf(g0),
            sa.len() == 81,
            grid_wf(old(self).s@),
            old(self).s@.len() == 81,
            gains_only(g0, old(self).s@),
            gained_digits(g0, old(self).s@),
            gained_candidates(p0, g0, old(self).s@),
            tracker_pinned_delta(p0, g0, old(self).p, old(self).s@),
            tracker_pinned_delta(p0, g0, pa, sa),
            gains_only(g0, sa),
            gained_digits(g0, sa),
            gains_only(sa, old(self).s@),
            result == diff_upto(g0, old(self).s@, 81),
            0 <= result <= 81,
            result == 0 ==> old(self).p == p0 && old(self).s@ == g0 && pa == p0 && sa == g0,
            forall|sol: Seq<u8>| #[trigger]
                tracks_solution(p0, g0, sol) ==> extends(sol, old(self).s@),
            col_marks_exactly(pa, a as int, i as int, pos as int, 9),
        ensures
            grid_wf(final(self).s@),
            final(self).s@.len() == 81,
            gains_only(g0, final(self).s@),
            gained_digits(g0, final(self).s@),
            gained_candidates(p0, g0, final(self).s@),
            tracker_pinned_delta(p0, g0, final(self).p, final(self).s@),
            gains_only(sa, final(self).s@),
            gains_only(old(self).s@, final(self).s@),
            r2 == diff_upto(g0, final(self).s@, 81),
            result <= r2 <= 81,
            r2 == 0 ==> final(self).p == p0 && final(self).s@ == g0,
            r2 >= 1 ==> result >= 1 || some_unique_blank(p0, g0),
            forall|sol: Seq<u8>| #[trigger]
                tracks_solution(p0, g0, sol) ==> extends(sol, final(self).s@),
            col_handled(p0, g0, final(self).s@, r2 as int, a as int, i as int),
    {
        let mut result2 = result;
        if pos < 9 {
            let cx = pos;
            let ghost pprev = self.p;
            let ghost gprev = self.s@;
            if self.commit_if_blank(i, cx, a) {
                result2 += 1;
                proof {
                    lemma_pack_of_unpack(cx as int, a as int);
                    assert(unique_in_column(pa, a as int, i as int, cx as int)) by {
                        reveal(col_marks_exactly);
                    }
                    lemma_commit_preserves(
                        p0,
                        g0,
                        pa,
                        sa,
                        pprev,
                        gprev,
                        self.p,
                        self.s@,
                        cx as int,
                        a as int,
                        i as int,
                    );
                    lemma_diff_bounds(g0, self.s@, 81);
                    if result == 0 {
                        reveal(some_unique_blank);
                        assert(unique_in_column(p0, a as int, i as int, cx as int));
                        assert(grid_at(g0, cx as int, a as int) == 0);
                        assert(some_unique_blank(p0, g0));
                    }
                    assert forall|sol: Seq<u8>| #[trigger] tracks_solution(p0, g0, sol) implies
                        extends(sol, self.s@) by {
                        assert(extends(sol, gprev));
                        lemma_commit_extends_col(
                            p0,
                            g0,
                            pa,
                            sa,
                            gprev,
                            self.s@,
                            sol,
                            a as int,
                            i as int,
                            cx as int,
                        );
                    }
                }
            }
        }
        proof {
            assert forall|b2: int|
                0 <= b2 < 9 && #[trigger] unique_in_column(p0, a as int, i as int, b2) && grid_at(
                    g0,
                    b2,
                    a as int,
                ) == 0 implies result2 >= 1 by {
                if result2 == 0 {
                    lemma_col_of_unique(pa, a as int, i as int, pos as int, b2);
                    assert(false);
                }
            }
            assert forall|sol: Seq<u8>, b2: int|
                #[trigger] tracks_solution(p0, g0, sol) && 0 <= b2 < 9
                    && #[trigger] unique_in_column(p0, a as int, i as int, b2) && grid_at(
                    g0,
                    b2,
                    a as int,
                ) == 0 implies grid_at(self.s@, b2, a as int) != 0 by {
                if grid_at(self.s@, b2, a as int) == 0 {
                    lemma_pack_of_unpack(b2, a as int);
                    assert(extends(sol, self.s@));
                    lemma_col_placement_forced(
                        p0,
                        g0,
                        pa,
                        sa,
                        self.s@,
                        sol,
                        a as int,
                        i as int,
                        b2,
                        pos as int,
                    );
                    assert(false);
                }
            }
            assert(col_handled(p0, g0, self.s@, result2 as int, a as int, i as int)) by {
                reveal(col_handled);
            }
        }
        result2
    }

    /// As `attempt_line`, for the block of unit index a with the cell at
    /// (posx, posy).
    #[verifier::rlimit(100)]
    fn attempt_block(
        &mut self,
        a: usize,
        i: usize,
        posx: usize,
        posy: usize,
        result: i32,
        Ghost(p0): Ghost<PossibleEntries>,
        Ghost(g0): Ghost<Seq<u8>>,
        Ghost(pa): Ghost<PossibleEntries>,
        Ghost(sa): Ghost<Seq<u8>>,
    ) -> (r2: i32)
        requires
            a < 9,
            i < 9,
            g0.len() == 81,
            grid_wf(g0),
            sa.len() == 81,
            grid_wf(old(self).s@),
            old(self).s@.len() == 81,
            gains_only(g0, old(self).s@),
            gained_digits(g0, old(self).s@),
            gained_candidates(p0, g0, old(self).s@),
            tracker_pinned_delta(p0, g0, old(self).p, old(self).s@),
            tracker_pinned_delta(p0, g0, pa, sa),
            gains_only(g0, sa),
            gained_digits(g0, sa),
            gains_only(sa, old(self).s@),
            result == diff_upto(g0, old(self).s@, 81),
            0 <= result <= 81,
            result == 0 ==> old(self).p == p0 && old(self).s@ == g0 && pa == p0 && sa == g0,
            forall|sol: Seq<u8>| #[trigger]
                tracks_solution(p0, g0, sol) ==> extends(sol, old(self).s@),
            block_marks_exactly(
                pa,
                a as int % 3,
                a as int / 3,
                i as int,
                posx as int,
                posy as int,
                9,
            ),
        ensures
            grid_wf(final(self).s@),
            final(self).s@.len() == 81,
            gains_only(g0, final(self).s@),
            gained_digits(g0, final(self).s@),
            gained_candidates(p0, g0, final(self).s@),
            tracker_pinned_delta(p0, g0, final(self).p, final(self).s@),
            gains_only(sa, final(self).s@),
            gains_only(old(self).s@, final(self).s@),
            r2 == diff_upto(g0, final(self).s@, 81),
            result <= r2 <= 81,
            r2 == 0 ==> final(self).p == p0 && final(self).s@ == g0,
            r2 >= 1 ==> result >= 1 || some_unique_blank(p0, g0),
            forall|sol: Seq<u8>| #[trigger]
                tracks_solution(p0, g0, sol) ==> extends(sol, final(self).s@),
            block_handled(p0, g0, final(self).s@, r2 as int, a as int, i as int),
    {
        let mut result2 = result;
        if posx < 9 {
            let cx = posx;
            let cy = posy;
            proof {
                lemma_block_pos_props(
                    pa,
                    a as int % 3,
                    a as int / 3,
                    i as int,
                    cx as int,
                    cy as int,
                );
            }
            let ghost pprev = self.p;
            let ghost gprev = self.s@;
            if self.commit_if_blank(i, cx, cy) {
                result2 += 1;
                proof {
                    lemma_pack_of_unpack(cx as int, cy as int);
                    lemma_commit_preserves(
                        p0,
                        g0,
                        pa,
                        sa,
                        pprev,
                        gprev,
                        self.p,
                        self.s@,
                        cx as int,
                        cy as int,
                        i as int,
                    );
                    lemma_diff_bounds(g0, self.s@, 81);
                    if result == 0 {
                        reveal(some_unique_blank);
                        assert(unique_in_block(p0, i as int, cx as int, cy as int));
                        assert(grid_at(g0, cx as int, cy as int) == 0);
                        assert(some_unique_blank(p0, g0));
                    }
                    assert forall|sol: Seq<u8>| #[trigger] tracks_solution(p0, g0, sol) implies
                        extends(sol, self.s@) by {
                        assert(extends(sol, gprev));
                        lemma_commit_extends_block(
                            p0,
                            g0,
                            pa,
                            sa,
                            gprev,
                            self.s@,
                            sol,
                            i as int,
                            cx as int,
                            cy as int,
                        );
                    }
                }
            }
        }
        proof {
            assert forall|x2: int, y2: int|
                in_grid(x2, y2) && x2 / 3 == a as int % 3 && y2 / 3 == a as int / 3
                    && #[trigger] unique_in_block(p0, i as int, x2, y2) && grid_at(g0, x2, y2)
                    == 0 implies result2 >= 1 by {
                if result2 == 0 {
                    lemma_block_of_unique(
                        pa,
                        a as int % 3,
                        a as int / 3,
                        i as int,
                        posx as int,
                        posy as int,
                        x2,
                        y2,
                    );
                    assert(false);
                }
            }
            assert forall|sol: Seq<u8>, x2: int, y2: int|
                #[trigger] tracks_solution(p0, g0, sol) && in_grid(x2, y2) && x2 / 3 == a as int % 3
                    && y2 / 3 == a as int / 3 && #[trigger] unique_in_block(p0, i as int, x2, y2)
                    && grid_at(g0, x2, y2) == 0 implies grid_at(self.s@, x2, y2) != 0 by {
                if grid_at(self.s@, x2, y2) == 0 {
                    lemma_pack_of_unpack(x2, y2);
                    assert(extends(sol, self.s@));
                    lemma_block_placement_forced(
                        p0,
                        g0,
                        pa,
                        sa,
                        self.s@,
                        sol,
                        a as int % 3,
                        a as int / 3,
                        i as int,
                        x2,
                        y2,
                        posx as int,
                        posy as int,
                    );
                    assert(false);
                }
            }
            assert(block_handled(p0, g0, self.s@, result2 as int, a as int, i as int)) by {
                reveal(block_handled);
            }
        }
        result2
    }

    /// One unique-candidate pass: for every line in both directions, and
    /// every 3x3 block, and every digit, when exactly one cell of the
    /// unit still admits the digit and that cell is blank, the digit is
    /// committed there, whatever other candidates the cell carries.
    /// Returns how many cells were committed.
    #[verifier::rlimit(100)]
    pub fn unique_candidate(&mut self) -> (count: i32)
        requires
            grid_wf(old(self).s@),
        ensures
            grid_wf(final(self).s@),
            final(self).s@.len() == 81,
            gains_only(old(self).s@, final(self).s@),
            gained_digits(old(self).s@, final(self).s@),
            gained_candidates(old(self).p, old(self).s@, final(self).s@),
            tracker_pinned_delta(old(self).p, old(self).s@, final(self).p, final(self).s@),
            count == diff_count(old(self).s@, final(self).s@),
            0 <= count <= 81,
            forall|a: int, i: int, b: int|
                0 <= a < 9 && 0 <= i < 9 && 0 <= b < 9 && #[trigger] unique_in_line(
                    old(self).p,
                    a,
                    i,
                    b,
                ) && grid_at(old(self).s@, a, b) == 0 ==> count >= 1,
            forall|a: int, i: int, b: int|
                0 <= a < 9 && 0 <= i < 9 && 0 <= b < 9 && #[trigger] unique_in_column(
                    old(self).p,
                    a,
                    i,
                    b,
                ) && grid_at(old(self).s@, b, a) == 0 ==> count >= 1,
            forall|i: int, x: int, y: int|
                in_grid(x, y) && 0 <= i < 9 && #[trigger] unique_in_block(old(self).p, i, x, y)
                    && grid_at(old(self).s@, x, y) == 0 ==> count >= 1,
            count >= 1 ==> some_unique_blank(old(self).p, old(self).s@),
            forall|sol: Seq<u8>| #[trigger]
                tracks_solution(old(self).p, old(self).s@, sol) ==> tracks_solution(
                    final(self).p,
                    final(self).s@,
                    sol,
                ),
            forall|sol: Seq<u8>, i: int, x: int, y: int|
                #[trigger] tracks_solution(old(self).p, old(self).s@, sol) && in_grid(x, y) && 0
                    <= i < 9 && grid_at(old(self).s@, x, y) == 0 && #[trigger] unique_in_line(
                    old(self).p,
                    x,
                    i,
                    y,
                ) ==> grid_at(final(self).s@, x, y) == i + 1,
            forall|sol: Seq<u8>, i: int, x: int, y: int|
                #[trigger] tracks_solution(old(self).p, old(self).s@, sol) && in_grid(x, y) && 0
                    <= i < 9 && grid_at(old(self).s@, x, y) == 0 && #[trigger] unique_in_column(
                    old(self).p,
                    y,
                    i,
                    x,
                ) ==> grid_at(final(self).s@, x, y) == i + 1,
            forall|sol: Seq<u8>, i: int, x: int, y: int|
                #[trigger] tracks_solution(old(self).p, old(self).s@, sol) && in_grid(x, y) && 0
                    <= i < 9 && grid_at(old(self).s@, x, y) == 0 && #[trigger] unique_in_block(
                    old(self).p,
                    i,
                    x,
                    y,
                ) ==> grid_at(final(self).s@, x, y) == i + 1,
    {
        let ghost p0 = self.p;
        let ghost g0 = self.s@;
        let mut result: i32 = 0;
        proof {
            lemma_diff_zero(g0, self.s@, 81);
            assert forall|sol: Seq<u8>| #[trigger] tracks_solution(p0, g0, sol) implies extends(
                sol,
                self.s@,
            ) by {
                reveal(tracks_solution);
            }
        }
        let mut a: usize = 0;
        while a < 9
            invariant
                a <= 9,
                p0 == old(self).p,
                g0 == old(self).s@,
                g0.len() == 81,
                grid_wf(g0),
                grid_wf(self.s@),
                self.s@.len() == 81,
                gains_only(g0, self.s@),
                gained_digits(g0, self.s@),
                gained_candidates(p0, g0, self.s@),
                tracker_pinned_delta(p0, g0, self.p, self.s@),
                result == diff_upto(g0, self.s@, 81),
                0 <= result <= 81,
                result == 0 ==> self.p == p0 && self.s@ == g0,
                result >= 1 ==> some_unique_blank(p0, g0),
                forall|sol: Seq<u8>| #[trigger]
                    tracks_solution(p0, g0, sol) ==> extends(sol, self.s@),
                forall|a2: int, i2: int|
                    0 <= a2 < a && 0 <= i2 < 9 ==> #[trigger] line_handled(
                        p0,
                        g0,
                        self.s@,
                        result as int,
                        a2,
                        i2,
                    ),
                forall|a2: int, i2: int|
                    0 <= a2 < a && 0 <= i2 < 9 ==> #[trigger] col_handled(
                        p0,
                        g0,
                        self.s@,
                        result as int,
                        a2,
                        i2,
                    ),
                forall|a2: int, i2: int|
                    0 <= a2 < a && 0 <= i2 < 9 ==> #[trigger] block_handled(
                        p0,
                        g0,
                        self.s@,
                        result as int,
                        a2,
                        i2,
                    ),
            decreases 9 - a,
        {
            let ghost pa = self.p;
            let ghost sa = self.s@;
            let mut pos_x: [usize; 9] = [POS_NOT_FOUND; 9];
            let mut pos_y: [usize; 9] = [POS_NOT_FOUND; 9];
            proof {
                reveal(pos_marks_exactly);
                reveal(col_marks_exactly);
                assert forall|i2: int| 0 <= i2 < 9 implies pos_marks_exactly(
                    pa,
                    a as int,
                    i2,
                    POS_NOT_FOUND as int,
                    0,
                ) by {}
                assert forall|i2: int| 0 <= i2 < 9 implies col_marks_exactly(
                    pa,
                    a as int,
                    i2,
                    POS_NOT_FOUND as int,
                    0,
                ) by {}
            }
            let mut b: usize = 0;
            while b < 9
                invariant
                    b <= 9,
                    a < 9,
                    self.p == pa,
                    forall|i: int|
                        0 <= i < 9 ==> pos_marks_exactly(
                            pa,
                            a as int,
                            i,
                            #[trigger] pos_y@[i] as int,
                            b as int,
                        ),
                    forall|i: int|
                        0 <= i < 9 ==> col_marks_exactly(
                            pa,
                            a as int,
                            i,
                            #[trigger] pos_x@[i] as int,
                            b as int,
                        ),
                decreases 9 - b,
            {
                let mut i: usize = 0;
                while i < 9
                    invariant
                        i <= 9,
                        b < 9,
                        a < 9,
                        self.p == pa,
                        forall|i2: int|
                            0 <= i2 < 9 ==> pos_marks_exactly(
                                pa,
                                a as int,
                                i2,
                                #[trigger] pos_y@[i2] as int,
                                if i2 < i {
                                    b + 1
                                } else {
                                    b as int
                                },
                            ),
                        forall|i2: int|
                            0 <= i2 < 9 ==> col_marks_exactly(
                                pa,
                                a as int,
                                i2,
                                #[trigger] pos_x@[i2] as int,
                                if i2 < i {
                                    b + 1
                                } else {
                                    b as int
                                },
                            ),
                    decreases 9 - i,
                {
                    let ghost old_pos_y = pos_y@[i as int] as int;
                    if self.p.field[a][b][i] {
                        pos_y[i] = if pos_y[i] == POS_NOT_FOUND {
                            b
                        } else {
                            POS_NOT_UNIQUE
                        };
                    }
                    proof {
                        lemma_pos_step(pa, a as int, i as int, old_pos_y, b as int);
                    }
                    let ghost old_pos_x = pos_x@[i as int] as int;
                    if self.p.field[b][a][i] {
                        pos_x[i] = if pos_x[i] == POS_NOT_FOUND {
                            b
                        } else {
                            POS_NOT_UNIQUE
                        };
                    }
                    proof {
                        lemma_col_step(pa, a as int, i as int, old_pos_x, b as int);
                    }
                    i += 1;
                }
                b += 1;
            }
            let bx = (a % 3) * 3;
            let by = (a / 3) * 3;
            let mut pos_bx: [usize; 9] = [POS_NOT_FOUND; 9];
            let mut pos_by: [usize; 9] = [0; 9];
            proof {
                reveal(block_marks_exactly);
                let ub = a as int % 3;
                let vb = a as int / 3;
                assert forall|i2: int| 0 <= i2 < 9 implies #[trigger] block_marks_exactly(
                    pa,
                    ub,
                    vb,
                    i2,
                    POS_NOT_FOUND as int,
                    0,
                    0,
                ) by {}
            }
            let mut dx: usize = 0;
            while dx < 3
                invariant
                    dx <= 3,
                    a < 9,
                    bx == (a % 3) * 3,
                    by == (a / 3) * 3,
                    self.p == pa,
                    forall|i: int|
                        0 <= i < 9 ==> block_marks_exactly(
                            pa,
                            a as int % 3,
                            a as int / 3,
                            i,
                            #[trigger] pos_bx@[i] as int,
                            pos_by@[i] as int,
                            dx as int * 3,
                        ),
                decreases 3 - dx,
            {
                let mut dy: usize = 0;
                while dy < 3
                    invariant
                        dy <= 3,
                        dx < 3,
                        a < 9,
                        bx == (a % 3) * 3,
                        by == (a / 3) * 3,
                        self.p == pa,
                        forall|i: int|
                            0 <= i < 9 ==> block_marks_exactly(
                                pa,
                                a as int % 3,
                                a as int / 3,
                                i,
                                #[trigger] pos_bx@[i] as int,
                                pos_by@[i] as int,
                                dx as int * 3 + dy,
                            ),
                    decreases 3 - dy,
                {
                    let mut i: usize = 0;
                    while i < 9
                        invariant
                            i <= 9,
                            dy < 3,
                            dx < 3,
                            a < 9,
                            bx == (a % 3) * 3,
                            by == (a / 3) * 3,
                            self.p == pa,
                            forall|i2: int|
                                0 <= i2 < 9 ==> block_marks_exactly(
                                    pa,
                                    a as int % 3,
                                    a as int / 3,
                                    i2,
                                    #[trigger] pos_bx@[i2] as int,
                                    pos_by@[i2] as int,
                                    if i2 < i {
                                        dx as int * 3 + dy + 1
                                    } else {
                                        dx as int * 3 + dy
                                    },
                                ),
                        decreases 9 - i,
                    {
                        let ghost old_px = pos_bx@[i as int] as int;
                        let ghost old_py = pos_by@[i as int] as int;
                        if self.p.field[bx + dx][by + dy][i] {
                            pos_by[i] = by + dy;
                            pos_bx[i] = if pos_bx[i] == POS_NOT_FOUND {
                                bx + dx
                            } else {
                                POS_NOT_UNIQUE
                            };
                        }
                        proof {
                            lemma_block_step(
                                pa,
                                a as int % 3,
                                a as int / 3,
                                i as int,
                                old_px,
                                old_py,
                                dx as int * 3 + dy as int,
                            );
                        }
                        i += 1;
                    }
                    dy += 1;
                }
                dx += 1;
            }
            let mut i: usize = 0;
            while i < 9
                invariant
                    i <= 9,
                    a < 9,
                    p0 == old(self).p,
                    g0 == old(self).s@,
                    g0.len() == 81,
                    grid_wf(g0),
                    grid_wf(self.s@),
                    self.s@.len() == 81,
                    gains_only(g0, self.s@),
                    gained_digits(g0, self.s@),
                    gained_candidates(p0, g0, self.s@),
                    tracker_pinned_delta(p0, g0, self.p, self.s@),
                    tracker_pinned_delta(p0, g0, pa, sa),
                    gains_only(g0, sa),
                    gained_digits(g0, sa),
                    sa.len() == 81,
                    gains_only(sa, self.s@),
                    result == diff_upto(g0, self.s@, 81),
                    0 <= result <= 81,
                    forall|i2: int|
                        0 <= i2 < 9 ==> pos_marks_exactly(
                            pa,
                            a as int,
                            i2,
                            #[trigger] pos_y@[i2] as int,
                            9,
                        ),
                    forall|i2: int|
                        0 <= i2 < 9 ==> col_marks_exactly(
                            pa,
                            a as int,
                            i2,
                            #[trigger] pos_x@[i2] as int,
                            9,
                        ),
                    forall|i2: int|
                        0 <= i2 < 9 ==> block_marks_exactly(
                            pa,
                            a as int % 3,
                            a as int / 3,
                            i2,
                            #[trigger] pos_bx@[i2] as int,
                            pos_by@[i2] as int,
                            9,
                        ),
                    result == 0 ==> self.p == p0 && self.s@ == g0 && pa == p0 && sa == g0,
                    result >= 1 ==> some_unique_blank(p0, g0),
                    forall|sol: Seq<u8>| #[trigger]
                        tracks_solution(p0, g0, sol) ==> extends(sol, self.s@),
                    forall|a2: int, i2: int|
                        0 <= a2 < 9 && 0 <= i2 < 9 && (a2 < a || (a2 == a as int && i2 < i))
                            ==> #[trigger] line_handled(p0, g0, self.s@, result as int, a2, i2),
                    forall|a2: int, i2: int|
                        0 <= a2 < 9 && 0 <= i2 < 9 && (a2 < a || (a2 == a as int && i2 < i))
                            ==> #[trigger] col_handled(p0, g0, self.s@, result as int, a2, i2),
                    forall|a2: int, i2: int|
                        0 <= a2 < 9 && 0 <= i2 < 9 && (a2 < a || (a2 == a as int && i2 < i))
                            ==> #[trigger] block_handled(p0, g0, self.s@, result as int, a2, i2),
                decreases 9 - i,
            {
                let ghost sh = self.s@;
                let ghost rh = result;
                result = self.attempt_line(
                    a,
                    i,
                    pos_y[i],
                    result,
                    Ghost(p0),
                    Ghost(g0),
                    Ghost(pa),
                    Ghost(sa),
                );
                let ghost s1 = self.s@;
                let ghost r1 = result;
                result = self.attempt_col(
                    a,
                    i,
                    pos_x[i],
                    result,
                    Ghost(p0),
                    Ghost(g0),
                    Ghost(pa),
                    Ghost(sa),
                );
                let ghost s2 = self.s@;
                let ghost r2 = result;
                result = self.attempt_block(
                    a,
                    i,
                    pos_bx[i],
                    pos_by[i],
                    result,
                    Ghost(p0),
                    Ghost(g0),
                    Ghost(pa),
                    Ghost(sa),
                );
                proof {
                    assert forall|c: int| 0 <= c < 81 && #[trigger] s1[c] != 0 implies self.s@[c]
                        == s1[c] by {
                        assert(s2[c] == s1[c]);
                    }
                    assert forall|c: int| 0 <= c < 81 && #[trigger] sh[c] != 0 implies self.s@[c]
                        == sh[c] by {
                        assert(s1[c] == sh[c]);
                        assert(s2[c] == s1[c]);
                    }
                    lemma_handled_mono(
                        p0,
                        g0,
                        s1,
                        self.s@,
                        r1 as int,
                        result as int,
                        a as int,
                        i as int,
                    );
                    lemma_handled_mono(
                        p0,
                        g0,
                        s2,
                        self.s@,
                        r2 as int,
                        result as int,
                        a as int,
                        i as int,
                    );
                    assert forall|a2: int, i2: int|
                        0 <= a2 < 9 && 0 <= i2 < 9 && (a2 < a || (a2 == a as int && i2 < i
                            + 1)) implies #[trigger] line_handled(
                        p0,
                        g0,
                        self.s@,
                        result as int,
                        a2,
                        i2,
                    ) by {
                        if a2 < a || (a2 == a as int && i2 < i) {
                            lemma_handled_mono(p0, g0, sh, self.s@, rh as int, result as int, a2, i2);
                        }
                    }
                    assert forall|a2: int, i2: int|
                        0 <= a2 < 9 && 0 <= i2 < 9 && (a2 < a || (a2 == a as int && i2 < i
                            + 1)) implies #[trigger] col_handled(
                        p0,
                        g0,
                        self.s@,
                        result as int,
                        a2,
                        i2,
                    ) by {
                        if a2 < a || (a2 == a as int && i2 < i) {
                            lemma_handled_mono(p0, g0, sh, self.s@, rh as int, result as int, a2, i2);
                        }
                    }
                    assert forall|a2: int, i2: int|
                        0 <= a2 < 9 && 0 <= i2 < 9 && (a2 < a || (a2 == a as int && i2 < i
                            + 1)) implies #[trigger] block_handled(
                        p0,
                        g0,
                        self.s@,
                        result as int,
                        a2,
                        i2,
                    ) by {
                        if a2 < a || (a2 == a as int && i2 < i) {
                            lemma_handled_mono(p0, g0, sh, self.s@, rh as int, result as int, a2, i2);
                        }
                    }
                }
                i += 1;
            }
            a += 1;
        }
        proof {
            reveal(line_handled);
            reveal(col_handled);
            reveal(block_handled);
            assert forall|sol: Seq<u8>| #[trigger] tracks_solution(p0, g0, sol) implies
                tracks_solution(self.p, self.s@, sol) by {
                assert(extends(sol, self.s@));
                lemma_tracks_carried(p0, g0, self.p, self.s@, sol);
            }
            assert forall|sol: Seq<u8>, i2: int, x: int, y: int|
                #[trigger] tracks_solution(p0, g0, sol) && in_grid(x, y) && 0 <= i2 < 9 && grid_at(
                    g0,
                    x,
                    y,
                ) == 0 && #[trigger] unique_in_line(p0, x, i2, y) implies grid_at(self.s@, x, y)
                == i2 + 1 by {
                assert(line_handled(p0, g0, self.s@, result as int, x, i2));
                lemma_pack_of_unpack(x, y);
                lemma_unique_is_solution_line(p0, g0, sol, x, i2, y);
                assert(grid_at(self.s@, x, y) != 0);
                assert(extends(sol, self.s@));
            }
            assert forall|sol: Seq<u8>, i2: int, x: int, y: int|
                #[trigger] tracks_solution(p0, g0, sol) && in_grid(x, y) && 0 <= i2 < 9 && grid_at(
                    g0,
                    x,
                    y,
                ) == 0 && #[trigger] unique_in_column(p0, y, i2, x) implies grid_at(self.s@, x, y)
                == i2 + 1 by {
                assert(col_handled(p0, g0, self.s@, result as int, y, i2));
                lemma_pack_of_unpack(x, y);
                lemma_unique_is_solution_column(p0, g0, sol, y, i2, x);
                assert(grid_at(self.s@, x, y) != 0);
                assert(extends(sol, self.s@));
            }
            assert forall|sol: Seq<u8>, i2: int, x: int, y: int|
                #[trigger] tracks_solution(p0, g0, sol) && in_grid(x, y) && 0 <= i2 < 9 && grid_at(
                    g0,
                    x,
                    y,
                ) == 0 && #[trigger] unique_in_block(p0, i2, x, y) implies grid_at(self.s@, x, y)
                == i2 + 1 by {
                let a2 = x / 3 + 3 * (y / 3);
                assert(a2 % 3 == x / 3 && a2 / 3 == y / 3);
                assert(block_handled(p0, g0, self.s@, result as int, a2, i2));
                lemma_pack_of_unpack(x, y);
                lemma_unique_is_solution_block(p0, g0, sol, i2, x, y);
                assert(grid_at(self.s@, x, y) != 0);
                assert(extends(sol, self.s@));
            }
            assert forall|a2: int, i2: int, b2: int|
                0 <= a2 < 9 && 0 <= i2 < 9 && 0 <= b2 < 9 && #[trigger] unique_in_line(
                    p0,
                    a2,
                    i2,
                    b2,
                ) && grid_at(g0, a2, b2) == 0 implies result >= 1 by {
                assert(line_handled(p0, g0, self.s@, result as int, a2, i2));
            }
            assert forall|a2: int, i2: int, b2: int|
                0 <= a2 < 9 && 0 <= i2 < 9 && 0 <= b2 < 9 && #[trigger] unique_in_column(
                    p0,
                    a2,
                    i2,
                    b2,
                ) && grid_at(g0, b2, a2) == 0 implies result >= 1 by {
                assert(col_handled(p0, g0, self.s@, result as int, a2, i2));
            }
            assert forall|i2: int, x: int, y: int|
                in_grid(x, y) && 0 <= i2 < 9 && #[trigger] unique_in_block(p0, i2, x, y)
                    && grid_at(g0, x, y) == 0 implies result >= 1 by {
                let a2 = x / 3 + 3 * (y / 3);
                assert(a2 % 3 == x / 3 && a2 / 3 == y / 3);
                assert(block_handled(p0, g0, self.s@, result as int, a2, i2));
            }
        }
        result
    }

    /// Intended rule: a digit confined, within a block, to one line
    /// cannot appear elsewhere on that line. Not implemented: an
    /// extension point that always finds nothing.
    pub fn line_block_interaction(&mut self) -> (count: i32)
        ensures
            count == 0,
            *final(self) == *old(self),
    {
        let result: i32 = 0;
        result
    }

    /// Intended rule: a digit ruled out of two blocks of a line must sit
    /// in the third block of that line. Not implemented: an extension
    /// point that always finds nothing.
    pub fn block_block_interaction(&mut self) -> (count: i32)
        ensures
            count == 0,
            *final(self) == *old(self),
    {
        let result: i32 = 0;
        result
    }

    /// Intended rule: n cells of a unit carrying only the same n
    /// candidates exclude those digits from the unit's other cells. Not
    /// implemented: an extension point that always finds nothing.
    pub fn naked_subset(&mut self) -> (count: i32)
        ensures
            count == 0,
            *final(self) == *old(self),
    {
        let result: i32 = 0;
        result
    }

    /// Intended rule: n digits confined to the same n cells of a unit
    /// exclude those cells' other candidates. Not implemented: an
    /// extension point that always finds nothing.
    pub fn hidden_subset(&mut self) -> (count: i32)
        ensures
            count == 0,
            *final(self) == *old(self),
    {
        let result: i32 = 0;
        result
    }

    /// Intended rule: four cells in a rectangle spanning blocks carrying
    /// two digits in alternation. Not implemented: an extension point
    /// that always finds nothing.
    pub fn x_wing(&mut self) -> (count: i32)
        ensures
            count == 0,
            *final(self) == *old(self),
    {
        let result: i32 = 0;
        result
    }
}

} // verus!
