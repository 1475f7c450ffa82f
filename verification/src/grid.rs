//! The triangular frequency scan order.
//!
//! A channel with grid dimensions `nx × ny` keeps coefficient `(cx, cy)`
//! exactly while `cx * ny < nx * (ny - cy)`, scanned row by row (`cy`
//! outermost, `cx` rising within a row).  The first entry of the scan is
//! always the DC term `(0, 0)`; the rest are the AC terms.

use vstd::prelude::*;

verus! {

/// The scan positions from `(cx, cy)` onward, in encoding order.
/// The guard `cx < nx` is redundant whenever the cutoff condition holds
/// inside the grid, but it makes the recursion structurally bounded.
pub open spec fn tri_from(nx: int, ny: int, cy: int, cx: int) -> Seq<(int, int)>
    decreases ny - cy, nx - cx,
        when 0 <= cy && 0 <= cx && 0 < nx && 0 < ny
{
    if cy >= ny {
        Seq::empty()
    } else if cx < nx && cx * ny < nx * (ny - cy) {
        seq![(cx, cy)] + tri_from(nx, ny, cy, cx + 1)
    } else {
        tri_from(nx, ny, cy + 1, 0)
    }
}

/// The whole scan of an `nx × ny` grid.
pub open spec fn tri_all(nx: int, ny: int) -> Seq<(int, int)> {
    tri_from(nx, ny, 0, 0)
}

/// Inside the grid the cutoff condition already implies `cx < nx`, so the
/// redundant guard in `tri_from` never cuts the scan short.
pub proof fn lemma_tri_guard(nx: int, ny: int, cy: int, cx: int)
    requires
        1 <= nx,
        1 <= ny,
        0 <= cy < ny,
        0 <= cx,
        cx * ny < nx * (ny - cy),
    ensures
        cx < nx,
{
    assert(cx < nx) by (nonlinear_arith)
        requires cx * ny < nx * (ny - cy), 1 <= nx, 1 <= ny, 0 <= cy < ny, 0 <= cx;
}

/// Every scan position lies inside the grid.
pub proof fn lemma_tri_bounds(nx: int, ny: int, cy: int, cx: int)
    requires
        1 <= nx,
        1 <= ny,
        0 <= cy,
        0 <= cx,
    ensures
        forall|k: int| 0 <= k < tri_from(nx, ny, cy, cx).len()
            ==> 0 <= (#[trigger] tri_from(nx, ny, cy, cx)[k]).0 < nx
                && 0 <= tri_from(nx, ny, cy, cx)[k].1 < ny,
    decreases ny - cy, nx - cx,
{
    if cy >= ny {
    } else if cx < nx && cx * ny < nx * (ny - cy) {
        lemma_tri_bounds(nx, ny, cy, cx + 1);
        let s = tri_from(nx, ny, cy, cx);
        let t = tri_from(nx, ny, cy, cx + 1);
        assert(s == seq![(cx, cy)] + t);
        assert forall|k: int| 0 <= k < s.len()
            implies 0 <= (#[trigger] s[k]).0 < nx && 0 <= s[k].1 < ny by {
            if k == 0 {
                assert(s[k] == (cx, cy));
            } else {
                assert(s[k] == t[k - 1]);
            }
        }
    } else {
        lemma_tri_bounds(nx, ny, cy + 1, 0);
        assert(tri_from(nx, ny, cy, cx) == tri_from(nx, ny, cy + 1, 0));
    }
}

/// The scan length is bounded by the grid area plus one extra per row.
pub proof fn lemma_tri_len(nx: int, ny: int, cy: int, cx: int)
    requires
        1 <= nx,
        1 <= ny,
        0 <= cy,
        0 <= cx,
    ensures
        tri_from(nx, ny, cy, cx).len()
            <= if cy < ny {
                (ny - cy) * (nx + 1) - (if cx < nx + 1 { cx } else { nx + 1 })
            } else {
                0
            },
    decreases ny - cy, nx - cx,
{
    if cy >= ny {
    } else if cx < nx && cx * ny < nx * (ny - cy) {
        lemma_tri_len(nx, ny, cy, cx + 1);
    } else {
        lemma_tri_len(nx, ny, cy + 1, 0);
        if cy + 1 < ny {
            assert((ny - cy - 1) * (nx + 1) + (nx + 1) == (ny - cy) * (nx + 1))
                by (nonlinear_arith);
        } else {
            assert((ny - cy) * (nx + 1) == nx + 1) by (nonlinear_arith)
                requires cy + 1 == ny;
        }
    }
}

/// The scan of any grid opens with the DC position `(0, 0)`.
pub proof fn lemma_tri_first(nx: int, ny: int)
    requires
        1 <= nx,
        1 <= ny,
    ensures
        tri_all(nx, ny).len() >= 1,
        tri_all(nx, ny)[0] == (0int, 0int),
        tri_all(nx, ny).skip(1) == tri_from(nx, ny, 0, 1),
{
    assert(0 * ny == 0) by (nonlinear_arith);
    assert(0 < nx * ny) by (nonlinear_arith)
        requires 1 <= nx, 1 <= ny;
    assert(tri_all(nx, ny) == seq![(0int, 0int)] + tri_from(nx, ny, 0, 1));
    assert(tri_all(nx, ny).skip(1) =~= tri_from(nx, ny, 0, 1));
}

/// Number of scan positions of an `nx × ny` grid (DC term included).
#[verifier::loop_isolation(false)]
pub fn tri_count(nx: usize, ny: usize) -> (c: usize)
    requires
        1 <= nx <= 7,
        1 <= ny <= 7,
    ensures
        c == tri_all(nx as int, ny as int).len(),
        1 <= c <= 56,
{
    proof {
        lemma_tri_len(nx as int, ny as int, 0, 0);
        lemma_tri_first(nx as int, ny as int);
        assert((ny as int) * (nx as int + 1) <= 56) by (nonlinear_arith)
            requires 1 <= nx <= 7, 1 <= ny <= 7;
    }
    proof {
        assert(0 * (ny as int) == 0) by (nonlinear_arith);
    }
    let mut c: usize = 0;
    let mut cy: usize = 0;
    while cy < ny
        invariant
            cy <= ny,
            c + tri_from(nx as int, ny as int, cy as int, 0).len()
                == tri_all(nx as int, ny as int).len(),
            c <= tri_all(nx as int, ny as int).len(),
        decreases ny - cy,
    {
        let mut cx: usize = 0;
        proof {
            assert((nx as int) * ((ny - cy) as int) <= 49) by (nonlinear_arith)
                requires nx <= 7, ny - cy <= 7, 0 <= ny as int - cy as int;
        }
        let row: usize = nx * (ny - cy);
        while cx * ny < row
            invariant
                cy < ny,
                cx <= nx,
                (cx as int) * (ny as int) <= 49,
                row == nx * (ny as int - cy as int),
                c + tri_from(nx as int, ny as int, cy as int, cx as int).len()
                    == tri_all(nx as int, ny as int).len(),
                c <= tri_all(nx as int, ny as int).len(),
            decreases nx - cx,
        {
            proof {
                lemma_tri_guard(nx as int, ny as int, cy as int, cx as int);
                assert(tri_from(nx as int, ny as int, cy as int, cx as int) ==
                    seq![(cx as int, cy as int)]
                        + tri_from(nx as int, ny as int, cy as int, cx as int + 1));
            }
            c = c + 1;
            cx = cx + 1;
            proof {
                assert((cx as int) * (ny as int) <= 49) by (nonlinear_arith)
                    requires cx <= 7, ny <= 7, 0 <= cx, 0 <= ny;
            }
        }
        proof {
            assert(tri_from(nx as int, ny as int, cy as int, cx as int)
                == tri_from(nx as int, ny as int, cy as int + 1, 0));
        }
        cy = cy + 1;
    }
    c
}

} // verus!
