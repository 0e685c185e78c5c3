//! Laws of the simulator, stated and proved against the public
//! specifications of the grid module.

use vstd::prelude::*;
use crate::grid::{disk_covers, idx_spec, in_disk, stepped_a, stepped_b, wrap1};

verus! {

/// Law: the toroidal indexer identifies each border coordinate with the
/// opposite border — `idx(-1, 0) == idx(w - 1, 0)`, `idx(w, 0) == idx(0, 0)`,
/// and symmetrically for the y axis.
pub proof fn lemma_toroidal_wrap(w: int, h: int)
    requires
        1 <= w,
        1 <= h,
    ensures
        idx_spec(-1, 0, w, h) == idx_spec(w - 1, 0, w, h),
        idx_spec(w, 0, w, h) == idx_spec(0, 0, w, h),
        idx_spec(0, -1, w, h) == idx_spec(0, h - 1, w, h),
        idx_spec(0, h, w, h) == idx_spec(0, 0, w, h),
{
}

/// Law: on its single-wrap domain the indexer's correction agrees with the
/// general positive modulus, so the two indexing strategies resolve every
/// in-domain coordinate to the same cell.
pub proof fn lemma_wrap1_is_mod(c: int, n: int)
    requires
        1 <= n,
        -n <= c < 2 * n,
    ensures
        wrap1(c, n) == c % n,
{
    if c < 0 {
        vstd::arithmetic::div_mod::lemma_fundamental_div_mod_converse(c, n, -1, c + n);
    } else if c < n {
        vstd::arithmetic::div_mod::lemma_small_mod(c as nat, n as nat);
    } else {
        vstd::arithmetic::div_mod::lemma_fundamental_div_mod_converse(c, n, 1, c - n);
    }
}

/// Law: on a grid whose dimensions are at least twice the radius, the cell
/// at offset `(dx, dy)` from the disk-seed anchor is covered exactly when
/// `dx` and `dy` lie in the half-open square `[-r, r)` and `dx*dx + dy*dy <=
/// r*r` — so, combined with the disk seed's postcondition, such a cell ends
/// up holding the seeded value exactly under that radius condition.
pub proof fn lemma_disk_offset_law(x: int, y: int, r: int, w: int, h: int, dx: int, dy: int)
    requires
        1 <= w,
        1 <= h,
        0 <= x < w,
        0 <= y < h,
        2 * r <= w,
        2 * r <= h,
        -r <= dx < r,
        -r <= dy < r,
    ensures
        disk_covers(x, y, r, w, h, wrap1(x + dx, w), wrap1(y + dy, h)) <==> dx * dx + dy * dy <= r
            * r,
{
    if dx * dx + dy * dy <= r * r {
        assert(in_disk(r, dx, dy) && wrap1(x + dx, w) == wrap1(x + dx, w) && wrap1(y + dy, h)
            == wrap1(y + dy, h));
    }
    if disk_covers(x, y, r, w, h, wrap1(x + dx, w), wrap1(y + dy, h)) {
        let (dx2, dy2) = choose|dx2: int, dy2: int|
            #[trigger] in_disk(r, dx2, dy2) && wrap1(x + dx2, w) == wrap1(x + dx, w) && wrap1(
                y + dy2,
                h,
            ) == wrap1(y + dy, h);
        assert(dx2 == dx && dy2 == dy);
    }
}

/// Law: the step integrator is deterministic. The post-step fields are a
/// function of the pre-step fields, the dimensions, the parameters and the
/// time increment alone, so stepping two identical states by the same
/// increment yields bit-identical results.
pub proof fn lemma_step_deterministic(
    ga1: Seq<u64>,
    gb1: Seq<u64>,
    ga2: Seq<u64>,
    gb2: Seq<u64>,
    w: int,
    h: int,
    d_a: u64,
    d_b: u64,
    f: u64,
    k: u64,
    dt: u64,
)
    requires
        ga1 == ga2,
        gb1 == gb2,
    ensures
        stepped_a(ga1, gb1, w, h, d_a, f, dt) == stepped_a(ga2, gb2, w, h, d_a, f, dt),
        stepped_b(stepped_a(ga1, gb1, w, h, d_a, f, dt), gb1, w, h, d_b, k, f, dt) == stepped_b(
            stepped_a(ga2, gb2, w, h, d_a, f, dt),
            gb2,
            w,
            h,
            d_b,
            k,
            f,
            dt,
        ),
{
}

} // verus!
