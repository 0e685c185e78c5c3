//! The Gray-Scott grid: two toroidally wrapped concentration fields, the
//! single-wrap indexer, the seeding primitives, the discrete Laplacian, and
//! the explicit-Euler step integrator.

use vstd::prelude::*;
use crate::fp::{
    add_bits, clamp_bits, f64_add, f64_mul, f64_sub, mul_bits, softclamp, sub_bits, F64_ONE_BITS,
    F64_ZERO_BITS, W_ADJACENT_BITS, W_CENTER_BITS, W_DIAGONAL_BITS,
};

verus! {

/// Selects one of the grid's two concentration fields.
#[derive(Clone, Copy)]
pub enum Field {
    A,
    B,
}

/// The field that a selector does not select.
pub open spec fn other_field(fld: Field) -> Field {
    match fld {
        Field::A => Field::B,
        Field::B => Field::A,
    }
}

/// Single-wrap toroidal correction: a coordinate that is out of range by
/// less than one full grid length is brought back by adding or subtracting
/// the length exactly once. This is not a general modulus; callers only ever
/// pass coordinates within one length of the valid range.
pub open spec fn wrap1(c: int, n: int) -> int {
    if c < 0 {
        c + n
    } else if c >= n {
        c - n
    } else {
        c
    }
}

/// The linear, row-major offset of the (toroidally wrapped) coordinate
/// `(x, y)` in a `w` by `h` field buffer.
pub open spec fn idx_spec(x: int, y: int, w: int, h: int) -> int {
    wrap1(y, h) * w + wrap1(x, w)
}

/// The value a row-major field buffer of width `w` holds at the in-range
/// cell `(cx, cy)`.
pub open spec fn cell(s: Seq<u64>, w: int, cx: int, cy: int) -> u64 {
    s[cy * w + cx]
}

/// The Gray-Scott simulation state: two same-shaped concentration fields
/// (binary64 values carried as bit patterns) and the four scalar model
/// parameters, fixed after construction.
pub struct ReactionDiffusionGrid {
    pub width: usize,
    pub height: usize,
    /// Diffusion rate of field A (binary64 bit pattern).
    pub d_a: u64,
    /// Diffusion rate of field B (binary64 bit pattern).
    pub d_b: u64,
    /// Feed rate (binary64 bit pattern).
    pub f: u64,
    /// Kill rate (binary64 bit pattern).
    pub k: u64,
    /// Concentration field A, row-major, of length `width * height`.
    pub grid_a: Vec<u64>,
    /// Concentration field B, row-major, of length `width * height`.
    pub grid_b: Vec<u64>,
}

impl ReactionDiffusionGrid {
    /// Shape invariant: positive dimensions, both fields of length
    /// `width * height`, and dimensions small enough that every coordinate
    /// and linear-offset computation fits in `isize`.
    pub open spec fn well_formed(&self) -> bool {
        &&& 0 < self.width
        &&& 0 < self.height
        &&& self.grid_a@.len() == self.width * self.height
        &&& self.grid_b@.len() == self.width * self.height
        &&& 2 * (self.width as int) <= isize::MAX as int
        &&& 2 * (self.height as int) <= isize::MAX as int
        &&& (self.width as int) * (self.height as int) <= isize::MAX as int
    }

    /// The view of the selected concentration field.
    pub open spec fn field_seq(&self, fld: Field) -> Seq<u64> {
        match fld {
            Field::A => self.grid_a@,
            Field::B => self.grid_b@,
        }
    }

    /// True when the two grids have the same dimensions and parameters.
    pub open spec fn same_shape_as(&self, other: &Self) -> bool {
        &&& self.width == other.width
        &&& self.height == other.height
        &&& self.d_a == other.d_a
        &&& self.d_b == other.d_b
        &&& self.f == other.f
        &&& self.k == other.k
    }

    /// Creates a grid of the requested shape with both fields uniformly
    /// `0.0` and the four model parameters as given.
    pub fn new(width: usize, height: usize, d_a: u64, d_b: u64, f: u64, k: u64) -> (r: Self)
        requires
            0 < width,
            0 < height,
            2 * (width as int) <= isize::MAX as int,
            2 * (height as int) <= isize::MAX as int,
            (width as int) * (height as int) <= isize::MAX as int,
        ensures
            r.well_formed(),
            r.width == width,
            r.height == height,
            r.d_a == d_a,
            r.d_b == d_b,
            r.f == f,
            r.k == k,
            forall|j: int| 0 <= j < width * height ==> #[trigger] r.grid_a@[j] == F64_ZERO_BITS,
            forall|j: int| 0 <= j < width * height ==> #[trigger] r.grid_b@[j] == F64_ZERO_BITS,
    {
        let n = width * height;
        let vec_a = zero_field(n);
        let vec_b = zero_field(n);
        ReactionDiffusionGrid { width, height, d_a, d_b, f, k, grid_a: vec_a, grid_b: vec_b }
    }

    /// The single-wrap toroidal indexer: maps a coordinate that is within
    /// one grid length of the valid range to its linear row-major offset.
    pub fn idx(&self, x: isize, y: isize) -> (r: usize)
        requires
            self.well_formed(),
            -(self.width as int) <= x < 2 * (self.width as int),
            -(self.height as int) <= y < 2 * (self.height as int),
        ensures
            r == idx_spec(x as int, y as int, self.width as int, self.height as int),
            r < self.width * self.height,
    {
        let mut nx = x;
        let mut ny = y;
        let iwidth = self.width as isize;
        let iheight = self.height as isize;
        if nx < 0 {
            nx += iwidth;
        } else if nx >= iwidth {
            nx -= iwidth;
        }
        if ny < 0 {
            ny += iheight;
        } else if ny >= iheight {
            ny -= iheight;
        }
        proof {
            lemma_linear_offset_in_range(
                self.width as int,
                self.height as int,
                nx as int,
                ny as int,
            );
        }
        (ny * iwidth + nx) as usize
    }

    /// Reads the selected field at the (toroidally wrapped) coordinate
    /// `(x, y)`; tolerates any coordinate within one grid length of range.
    pub fn grid_val(&self, fld: Field, x: isize, y: isize) -> (r: u64)
        requires
            self.well_formed(),
            -(self.width as int) <= x < 2 * (self.width as int),
            -(self.height as int) <= y < 2 * (self.height as int),
        ensures
            r == self.field_seq(fld)[idx_spec(
                x as int,
                y as int,
                self.width as int,
                self.height as int,
            )],
    {
        let i = self.idx(x, y);
        match fld {
            Field::A => self.grid_a[i],
            Field::B => self.grid_b[i],
        }
    }

    /// Sets every cell of the axis-aligned rectangle `[x, x + size_x) x
    /// [y, y + size_y)`, wrapped toroidally, in the selected field to
    /// `value`, bypassing the stability clamp; every other cell, and the
    /// other field, are unchanged. A zero extent is a no-op.
    pub fn seed(&mut self, fld: Field, x: usize, y: usize, size_x: usize, size_y: usize, value: u64)
        requires
            old(self).well_formed(),
            x + size_x <= 2 * old(self).width,
            y + size_y <= 2 * old(self).height,
        ensures
            final(self).well_formed(),
            final(self).same_shape_as(old(self)),
            final(self).field_seq(other_field(fld)) == old(self).field_seq(other_field(fld)),
            final(self).field_seq(fld).len() == old(self).field_seq(fld).len(),
            forall|cx: int, cy: int|
                0 <= cx < old(self).width && 0 <= cy < old(self).height ==> #[trigger] cell(
                    final(self).field_seq(fld),
                    old(self).width as int,
                    cx,
                    cy,
                ) == (if rect_covers(x as int, size_x as int, old(self).width as int, cx)
                    && rect_covers(y as int, size_y as int, old(self).height as int, cy) {
                    value
                } else {
                    cell(old(self).field_seq(fld), old(self).width as int, cx, cy)
                }),
    {
        let ghost w = self.width as int;
        let ghost h = self.height as int;
        let ghost xi = x as int;
        let ghost yi = y as int;
        let mut oy: usize = 0;
        while oy < size_y
            invariant
                oy <= size_y,
                self.well_formed(),
                self.same_shape_as(old(self)),
                w == old(self).width as int,
                h == old(self).height as int,
                xi == x as int,
                yi == y as int,
                xi + size_x <= 2 * w,
                yi + size_y <= 2 * h,
                self.field_seq(other_field(fld)) == old(self).field_seq(other_field(fld)),
                self.field_seq(fld).len() == old(self).field_seq(fld).len(),
                forall|cx: int, cy: int|
                    0 <= cx < w && 0 <= cy < h ==> #[trigger] cell(self.field_seq(fld), w, cx, cy)
                        == (if rect_covers(xi, size_x as int, w, cx) && rect_covers(
                        yi,
                        oy as int,
                        h,
                        cy,
                    ) {
                        value
                    } else {
                        cell(old(self).field_seq(fld), w, cx, cy)
                    }),
            decreases size_y - oy,
        {
            let mut ox: usize = 0;
            while ox < size_x
                invariant
                    oy < size_y,
                    ox <= size_x,
                    self.well_formed(),
                    self.same_shape_as(old(self)),
                    w == old(self).width as int,
                    h == old(self).height as int,
                    xi == x as int,
                    yi == y as int,
                    xi + size_x <= 2 * w,
                    yi + size_y <= 2 * h,
                    self.field_seq(other_field(fld)) == old(self).field_seq(other_field(fld)),
                    self.field_seq(fld).len() == old(self).field_seq(fld).len(),
                    forall|cx: int, cy: int|
                        0 <= cx < w && 0 <= cy < h ==> #[trigger] cell(
                            self.field_seq(fld),
                            w,
                            cx,
                            cy,
                        ) == (if (rect_covers(xi, size_x as int, w, cx) && rect_covers(
                            yi,
                            oy as int,
                            h,
                            cy,
                        )) || (rect_covers(xi, ox as int, w, cx) && cy == wrap1(yi + oy, h)) {
                            value
                        } else {
                            cell(old(self).field_seq(fld), w, cx, cy)
                        }),
                decreases size_x - ox,
            {
                let ghost prev = self.field_seq(fld);
                self.set_grid_val(fld, (x + ox) as isize, (y + oy) as isize, value);
                proof {
                    lemma_rect_covers_extend(xi, ox as int, w);
                    assert forall|cx: int, cy: int| 0 <= cx < w && 0 <= cy < h implies #[trigger] cell(
                        self.field_seq(fld),
                        w,
                        cx,
                        cy,
                    ) == (if (rect_covers(xi, size_x as int, w, cx) && rect_covers(
                        yi,
                        oy as int,
                        h,
                        cy,
                    )) || (rect_covers(xi, (ox + 1) as int, w, cx) && cy == wrap1(yi + oy, h)) {
                        value
                    } else {
                        cell(old(self).field_seq(fld), w, cx, cy)
                    }) by {
                        lemma_linear_offset_in_range(w, h, cx, cy);
                        let wx = wrap1(xi + ox, w);
                        let wy = wrap1(yi + oy, h);
                        assert(0 <= wx < w);
                        assert(0 <= wy < h);
                        lemma_row_major_inj(w, cx, cy, wx, wy);
                        lemma_linear_offset_in_range(w, h, wx, wy);
                        assert(cell(prev, w, cx, cy) == prev[cy * w + cx]);
                        assert(prev.len() == w * h);
                        let ii = idx_spec(xi + ox, yi + oy, w, h);
                        assert(ii == wy * w + wx);
                        assert(self.field_seq(fld) == prev.update(ii, value));
                        assert(rect_covers(xi, ox as int + 1, w, cx) <==> (rect_covers(
                            xi,
                            ox as int,
                            w,
                            cx,
                        ) || cx == wx));
                        if cx == wx && cy == wy {
                            assert(cy * w + cx == ii);
                            assert(cell(self.field_seq(fld), w, cx, cy) == value);
                        } else {
                            assert(cy * w + cx != ii);
                            assert(cell(self.field_seq(fld), w, cx, cy) == cell(prev, w, cx, cy));
                        }
                    }
                }
                ox += 1;
            }
            proof {
                lemma_rect_covers_extend(yi, oy as int, h);
            }
            oy += 1;
        }
    }

    /// One full sweep of the A pass: the post-step values of field A,
    /// computed from the current buffers into a scratch buffer, leaving the
    /// grid untouched.
    fn compute_a_pass(&self, delta_t: u64) -> (r: Vec<u64>)
        requires
            self.well_formed(),
        ensures
            r@.len() == self.width * self.height,
            forall|cx: int, cy: int|
                0 <= cx < self.width && 0 <= cy < self.height ==> #[trigger] cell(
                    r@,
                    self.width as int,
                    cx,
                    cy,
                ) == new_a_at(
                    self.grid_a@,
                    self.grid_b@,
                    self.width as int,
                    self.height as int,
                    self.d_a,
                    self.f,
                    delta_t,
                    cx,
                    cy,
                ),
    {
        let ghost w = self.width as int;
        let ghost h = self.height as int;
        let n = self.width * self.height;
        let mut tmp = zero_field(n);
        let mut y: usize = 0;
        while y < self.height
            invariant
                self.well_formed(),
                y <= self.height,
                n == self.width * self.height,
                tmp@.len() == n,
                forall|cx: int, cy: int|
                    0 <= cx < self.width && 0 <= cy < y ==> #[trigger] cell(
                        tmp@,
                        self.width as int,
                        cx,
                        cy,
                    ) == new_a_at(
                        self.grid_a@,
                        self.grid_b@,
                        self.width as int,
                        self.height as int,
                        self.d_a,
                        self.f,
                        delta_t,
                        cx,
                        cy,
                    ),
            decreases self.height - y,
        {
            let mut x: usize = 0;
            while x < self.width
                invariant
                    self.well_formed(),
                    y < self.height,
                    x <= self.width,
                    n == self.width * self.height,
                    tmp@.len() == n,
                    forall|cx: int, cy: int|
                        0 <= cx < self.width && 0 <= cy < y ==> #[trigger] cell(
                            tmp@,
                            self.width as int,
                            cx,
                            cy,
                        ) == new_a_at(
                            self.grid_a@,
                            self.grid_b@,
                            self.width as int,
                            self.height as int,
                            self.d_a,
                            self.f,
                            delta_t,
                            cx,
                            cy,
                        ),
                    forall|cx: int|
                        0 <= cx < x ==> #[trigger] cell(tmp@, self.width as int, cx, y as int)
                            == new_a_at(
                            self.grid_a@,
                            self.grid_b@,
                            self.width as int,
                            self.height as int,
                            self.d_a,
                            self.f,
                            delta_t,
                            cx,
                            y as int,
                        ),
                decreases self.width - x,
            {
                let ghost prev = tmp@;
                let i = self.idx(x as isize, y as isize);
                let a = self.grid_a[i];
                let b = self.grid_b[i];
                let abb = f64_mul(f64_mul(a, b), b);
                let lap = self.laplacian(Field::A, x as isize, y as isize);
                let val = softclamp(
                    f64_add(
                        a,
                        f64_mul(
                            f64_add(
                                f64_sub(f64_mul(self.d_a, lap), abb),
                                f64_mul(self.f, f64_sub(F64_ONE_BITS, a)),
                            ),
                            delta_t,
                        ),
                    ),
                );
                tmp.set(i, val);
                proof {
                    lemma_pass_cell_update(
                        prev,
                        tmp@,
                        self.width as int,
                        self.height as int,
                        x as int,
                        y as int,
                        val,
                    );
                }
                x += 1;
            }
            y += 1;
        }
        tmp
    }

    /// One full sweep of the B pass: the post-step values of field B,
    /// computed from the current buffers (field A already holding its
    /// post-step values) into a scratch buffer, leaving the grid untouched.
    fn compute_b_pass(&self, delta_t: u64) -> (r: Vec<u64>)
        requires
            self.well_formed(),
        ensures
            r@.len() == self.width * self.height,
            forall|cx: int, cy: int|
                0 <= cx < self.width && 0 <= cy < self.height ==> #[trigger] cell(
                    r@,
                    self.width as int,
                    cx,
                    cy,
                ) == new_b_at(
                    self.grid_a@,
                    self.grid_b@,
                    self.width as int,
                    self.height as int,
                    self.d_b,
                    self.k,
                    self.f,
                    delta_t,
                    cx,
                    cy,
                ),
    {
        let ghost w = self.width as int;
        let ghost h = self.height as int;
        let n = self.width * self.height;
        let mut tmp = zero_field(n);
        let mut y: usize = 0;
        while y < self.height
            invariant
                self.well_formed(),
                y <= self.height,
                n == self.width * self.height,
                tmp@.len() == n,
                forall|cx: int, cy: int|
                    0 <= cx < self.width && 0 <= cy < y ==> #[trigger] cell(
                        tmp@,
                        self.width as int,
                        cx,
                        cy,
                    ) == new_b_at(
                        self.grid_a@,
                        self.grid_b@,
                        self.width as int,
                        self.height as int,
                        self.d_b,
                        self.k,
                        self.f,
                        delta_t,
                        cx,
                        cy,
                    ),
            decreases self.height - y,
        {
            let mut x: usize = 0;
            while x < self.width
                invariant
                    self.well_formed(),
                    y < self.height,
                    x <= self.width,
                    n == self.width * self.height,
                    tmp@.len() == n,
                    forall|cx: int, cy: int|
                        0 <= cx < self.width && 0 <= cy < y ==> #[trigger] cell(
                            tmp@,
                            self.width as int,
                            cx,
                            cy,
                        ) == new_b_at(
                            self.grid_a@,
                            self.grid_b@,
                            self.width as int,
                            self.height as int,
                            self.d_b,
                            self.k,
                            self.f,
                            delta_t,
                            cx,
                            cy,
                        ),
                    forall|cx: int|
                        0 <= cx < x ==> #[trigger] cell(tmp@, self.width as int, cx, y as int)
                            == new_b_at(
                            self.grid_a@,
                            self.grid_b@,
                            self.width as int,
                            self.height as int,
                            self.d_b,
                            self.k,
                            self.f,
                            delta_t,
                            cx,
                            y as int,
                        ),
                decreases self.width - x,
            {
                let ghost prev = tmp@;
                let i = self.idx(x as isize, y as isize);
                let a = self.grid_a[i];
                let b = self.grid_b[i];
                let abb = f64_mul(f64_mul(a, b), b);
                let lap = self.laplacian(Field::B, x as isize, y as isize);
                let val = softclamp(
                    f64_add(
                        b,
                        f64_mul(
                            f64_sub(
                                f64_add(f64_mul(self.d_b, lap), abb),
                                f64_mul(f64_add(self.k, self.f), b),
                            ),
                            delta_t,
                        ),
                    ),
                );
                tmp.set(i, val);
                proof {
                    lemma_pass_cell_update(
                        prev,
                        tmp@,
                        self.width as int,
                        self.height as int,
                        x as int,
                        y as int,
                        val,
                    );
                }
                x += 1;
            }
            y += 1;
        }
        tmp
    }

    /// Advances the whole grid by one time increment `delta_t` (a binary64
    /// bit pattern) of explicit Euler integration of the Gray-Scott
    /// equations: first field A is fully recomputed from a snapshot of the
    /// pre-step buffers into a scratch buffer and committed, then field B is
    /// fully recomputed (its cross-field coupling reading the already
    /// committed field A) and committed. Every stored value passes through
    /// the stability clamp. Always succeeds; both fields are replaced.
    pub fn update(&mut self, delta_t: u64)
        requires
            old(self).well_formed(),
        ensures
            final(self).well_formed(),
            final(self).same_shape_as(old(self)),
            final(self).grid_a@ == stepped_a(
                old(self).grid_a@,
                old(self).grid_b@,
                old(self).width as int,
                old(self).height as int,
                old(self).d_a,
                old(self).f,
                delta_t,
            ),
            final(self).grid_b@ == stepped_b(
                final(self).grid_a@,
                old(self).grid_b@,
                old(self).width as int,
                old(self).height as int,
                old(self).d_b,
                old(self).k,
                old(self).f,
                delta_t,
            ),
            forall|cx: int, cy: int|
                0 <= cx < old(self).width && 0 <= cy < old(self).height ==> #[trigger] cell(
                    final(self).grid_a@,
                    old(self).width as int,
                    cx,
                    cy,
                ) == new_a_at(
                    old(self).grid_a@,
                    old(self).grid_b@,
                    old(self).width as int,
                    old(self).height as int,
                    old(self).d_a,
                    old(self).f,
                    delta_t,
                    cx,
                    cy,
                ),
            forall|cx: int, cy: int|
                0 <= cx < old(self).width && 0 <= cy < old(self).height ==> #[trigger] cell(
                    final(self).grid_b@,
                    old(self).width as int,
                    cx,
                    cy,
                ) == new_b_at(
                    final(self).grid_a@,
                    old(self).grid_b@,
                    old(self).width as int,
                    old(self).height as int,
                    old(self).d_b,
                    old(self).k,
                    old(self).f,
                    delta_t,
                    cx,
                    cy,
                ),
    {
        let ghost w = self.width as int;
        let ghost h = self.height as int;
        let ghost ga0 = self.grid_a@;
        let ghost gb0 = self.grid_b@;
        let tmp_a = self.compute_a_pass(delta_t);
        proof {
            let target = stepped_a(ga0, gb0, w, h, self.d_a, self.f, delta_t);
            assert forall|j: int| 0 <= j < w * h implies tmp_a@[j] == target[j] by {
                lemma_row_major_split(w, h, j);
                assert(cell(tmp_a@, w, j % w, j / w) == tmp_a@[(j / w) * w + (j % w)]);
            }
            assert(tmp_a@ =~= target);
        }
        self.grid_a = tmp_a;
        let tmp_b = self.compute_b_pass(delta_t);
        proof {
            let target = stepped_b(tmp_a@, gb0, w, h, self.d_b, self.k, self.f, delta_t);
            assert forall|j: int| 0 <= j < w * h implies tmp_b@[j] == target[j] by {
                lemma_row_major_split(w, h, j);
                assert(cell(tmp_b@, w, j % w, j / w) == tmp_b@[(j / w) * w + (j % w)]);
            }
            assert(tmp_b@ =~= target);
        }
        self.grid_b = tmp_b;
    }

    /// Sets every cell whose offset `(dx, dy)` from `(x, y)` has both
    /// components in `[-size, size)` and satisfies `dx*dx + dy*dy <=
    /// size*size` (a disk, wrapped toroidally, with one fewer cell on each
    /// positive side) in the selected field to `value`, bypassing the
    /// stability clamp; every other cell, and the other field, are
    /// unchanged. A zero radius is a no-op.
    pub fn seed_round(&mut self, fld: Field, x: usize, y: usize, size: usize, value: u64)
        requires
            old(self).well_formed(),
            size <= old(self).width,
            size <= old(self).height,
            x + size <= 2 * old(self).width,
            y + size <= 2 * old(self).height,
            2 * ((size as int) * (size as int)) <= isize::MAX as int,
        ensures
            final(self).well_formed(),
            final(self).same_shape_as(old(self)),
            final(self).field_seq(other_field(fld)) == old(self).field_seq(other_field(fld)),
            final(self).field_seq(fld).len() == old(self).field_seq(fld).len(),
            forall|cx: int, cy: int|
                0 <= cx < old(self).width && 0 <= cy < old(self).height ==> #[trigger] cell(
                    final(self).field_seq(fld),
                    old(self).width as int,
                    cx,
                    cy,
                ) == (if disk_covers(
                    x as int,
                    y as int,
                    size as int,
                    old(self).width as int,
                    old(self).height as int,
                    cx,
                    cy,
                ) {
                    value
                } else {
                    cell(old(self).field_seq(fld), old(self).width as int, cx, cy)
                }),
    {
        let ghost w = self.width as int;
        let ghost h = self.height as int;
        let ghost xi = x as int;
        let ghost yi = y as int;
        let ghost ri = size as int;
        let isz = size as isize;
        proof {
            assert forall|cx: int, cy: int| 0 <= cx < w && 0 <= cy < h implies !#[trigger] disk_covers_upto(
                xi,
                yi,
                ri,
                w,
                h,
                cx,
                cy,
                -ri,
                -ri,
            ) by {
                lemma_upto_empty(xi, yi, ri, w, h, cx, cy);
            }
        }
        let mut oy: isize = -isz;
        while oy < isz
            invariant
                self.well_formed(),
                self.same_shape_as(old(self)),
                w == old(self).width as int,
                h == old(self).height as int,
                xi == x as int,
                yi == y as int,
                ri == size as int,
                isz == size as isize,
                ri <= w,
                ri <= h,
                xi + ri <= 2 * w,
                yi + ri <= 2 * h,
                2 * (ri * ri) <= isize::MAX as int,
                -isz <= oy <= isz,
                self.field_seq(other_field(fld)) == old(self).field_seq(other_field(fld)),
                self.field_seq(fld).len() == old(self).field_seq(fld).len(),
                forall|cx: int, cy: int|
                    0 <= cx < w && 0 <= cy < h ==> #[trigger] cell(self.field_seq(fld), w, cx, cy)
                        == (if disk_covers_upto(xi, yi, ri, w, h, cx, cy, oy as int, -ri) {
                        value
                    } else {
                        cell(old(self).field_seq(fld), w, cx, cy)
                    }),
            decreases isz - oy,
        {
            let mut ox: isize = -isz;
            while ox < isz
                invariant
                    self.well_formed(),
                    self.same_shape_as(old(self)),
                    w == old(self).width as int,
                    h == old(self).height as int,
                    xi == x as int,
                    yi == y as int,
                    ri == size as int,
                    isz == size as isize,
                    ri <= w,
                    ri <= h,
                    xi + ri <= 2 * w,
                    yi + ri <= 2 * h,
                    2 * (ri * ri) <= isize::MAX as int,
                    -isz <= oy < isz,
                    -isz <= ox <= isz,
                    self.field_seq(other_field(fld)) == old(self).field_seq(other_field(fld)),
                    self.field_seq(fld).len() == old(self).field_seq(fld).len(),
                    forall|cx: int, cy: int|
                        0 <= cx < w && 0 <= cy < h ==> #[trigger] cell(
                            self.field_seq(fld),
                            w,
                            cx,
                            cy,
                        ) == (if disk_covers_upto(xi, yi, ri, w, h, cx, cy, oy as int, ox as int) {
                            value
                        } else {
                            cell(old(self).field_seq(fld), w, cx, cy)
                        }),
                decreases isz - ox,
            {
                proof {
                    lemma_square_bound(ri, ox as int);
                    lemma_square_bound(ri, oy as int);
                }
                let ghost prev = self.field_seq(fld);
                let inside = ox * ox + oy * oy <= isz * isz;
                if inside {
                    self.set_grid_val(fld, x as isize + ox, y as isize + oy, value);
                }
                proof {
                    let wx = wrap1(xi + ox, w);
                    let wy = wrap1(yi + oy, h);
                    assert(0 <= wx < w);
                    assert(0 <= wy < h);
                    let ii = idx_spec(xi + ox, yi + oy, w, h);
                    assert forall|cx: int, cy: int| 0 <= cx < w && 0 <= cy < h implies #[trigger] cell(
                        self.field_seq(fld),
                        w,
                        cx,
                        cy,
                    ) == (if disk_covers_upto(xi, yi, ri, w, h, cx, cy, oy as int, ox as int + 1) {
                        value
                    } else {
                        cell(old(self).field_seq(fld), w, cx, cy)
                    }) by {
                        lemma_upto_step(xi, yi, ri, w, h, cx, cy, oy as int, ox as int);
                        lemma_linear_offset_in_range(w, h, cx, cy);
                        lemma_linear_offset_in_range(w, h, wx, wy);
                        lemma_row_major_inj(w, cx, cy, wx, wy);
                        assert(cell(prev, w, cx, cy) == prev[cy * w + cx]);
                        assert(prev.len() == w * h);
                        if inside {
                            assert(self.field_seq(fld) == prev.update(ii, value));
                            assert(ii == wy * w + wx);
                        } else {
                            assert(!in_disk(ri, ox as int, oy as int));
                        }
                    }
                }
                ox += 1;
            }
            proof {
                assert forall|cx: int, cy: int| 0 <= cx < w && 0 <= cy < h implies (
                disk_covers_upto(xi, yi, ri, w, h, cx, cy, oy as int, ri) <==> disk_covers_upto(
                    xi,
                    yi,
                    ri,
                    w,
                    h,
                    cx,
                    cy,
                    oy as int + 1,
                    -ri,
                )) by {
                    lemma_upto_row(xi, yi, ri, w, h, cx, cy, oy as int);
                }
            }
            oy += 1;
        }
        proof {
            assert forall|cx: int, cy: int| 0 <= cx < w && 0 <= cy < h implies (disk_covers_upto(
                xi,
                yi,
                ri,
                w,
                h,
                cx,
                cy,
                ri,
                -ri,
            ) <==> disk_covers(xi, yi, ri, w, h, cx, cy)) by {
                lemma_upto_full(xi, yi, ri, w, h, cx, cy);
            }
        }
    }

    /// Computes the discrete Laplacian of the selected field at the in-range
    /// cell `(x, y)`: a 9-point weighted sum over the Moore neighborhood,
    /// wrapping toroidally at the borders. Reads only; no side effect.
    pub fn laplacian(&self, fld: Field, x: isize, y: isize) -> (r: u64)
        requires
            self.well_formed(),
            0 <= x < self.width,
            0 <= y < self.height,
        ensures
            r == laplacian_at(
                self.field_seq(fld),
                self.width as int,
                self.height as int,
                x as int,
                y as int,
            ),
    {
        let ghost w = self.width as int;
        let ghost h = self.height as int;
        let mut lap: u64 = F64_ZERO_BITS;
        let mut kk: usize = 0;
        while kk < 9
            invariant
                self.well_formed(),
                0 <= x < self.width,
                0 <= y < self.height,
                kk <= 9,
                w == self.width as int,
                h == self.height as int,
                lap == lap_partial(self.field_seq(fld), w, h, x as int, y as int, kk as int),
            decreases 9 - kk,
        {
            let (ox, oy) = stencil_offset(kk);
            let wgt = stencil_weight(kk);
            let ngb = self.grid_val(fld, x + ox, y + oy);
            lap = f64_add(lap, f64_mul(wgt, ngb));
            kk += 1;
        }
        lap
    }

    /// Writes `value` into the selected field at the (toroidally wrapped)
    /// coordinate `(x, y)`, leaving everything else unchanged.
    pub fn set_grid_val(&mut self, fld: Field, x: isize, y: isize, value: u64)
        requires
            old(self).well_formed(),
            -(old(self).width as int) <= x < 2 * (old(self).width as int),
            -(old(self).height as int) <= y < 2 * (old(self).height as int),
        ensures
            final(self).well_formed(),
            final(self).same_shape_as(old(self)),
            final(self).field_seq(fld) == old(self).field_seq(fld).update(
                idx_spec(x as int, y as int, old(self).width as int, old(self).height as int),
                value,
            ),
            final(self).field_seq(other_field(fld)) == old(self).field_seq(other_field(fld)),
    {
        let i = self.idx(x, y);
        match fld {
            Field::A => {
                self.grid_a.set(i, value);
            },
            Field::B => {
                self.grid_b.set(i, value);
            },
        }
    }
}

/// A buffer of `n` cells, all holding the bit pattern of `0.0`.
fn zero_field(n: usize) -> (r: Vec<u64>)
    ensures
        r@.len() == n,
        forall|j: int| 0 <= j < n ==> #[trigger] r@[j] == F64_ZERO_BITS,
{
    let mut v: Vec<u64> = Vec::new();
    while v.len() < n
        invariant
            v@.len() <= n,
            forall|j: int| 0 <= j < v@.len() ==> #[trigger] v@[j] == F64_ZERO_BITS,
        decreases n - v@.len(),
    {
        v.push(F64_ZERO_BITS);
    }
    v
}

/// Whether the in-range coordinate `c` lies in the toroidally wrapped
/// interval that starts at `anchor` (with `0 <= anchor < 2 * n`) and extends
/// for `len` cells: either directly, or after one wrap of the torus.
pub open spec fn rect_covers(anchor: int, len: int, n: int, c: int) -> bool {
    (anchor <= c < anchor + len) || (anchor <= c + n < anchor + len)
}

/// Extending a wrapped interval by one cell covers exactly the single-wrap
/// image of the next coordinate, and nothing else.
proof fn lemma_rect_covers_extend(anchor: int, l: int, n: int)
    requires
        0 <= anchor,
        0 <= l,
        anchor + l < 2 * n,
        1 <= n,
    ensures
        forall|c: int|
            0 <= c < n ==> (#[trigger] rect_covers(anchor, l + 1, n, c) <==> (rect_covers(
                anchor,
                l,
                n,
                c,
            ) || c == wrap1(anchor + l, n))),
{
}

/// Distinct in-range cells have distinct row-major linear offsets.
proof fn lemma_row_major_inj(w: int, cx: int, cy: int, dx: int, dy: int) by (nonlinear_arith)
    requires
        1 <= w,
        0 <= cx < w,
        0 <= dx < w,
        0 <= cy,
        0 <= dy,
    ensures
        (cy * w + cx == dy * w + dx) <==> (cx == dx && cy == dy),
{
}

/// Whether the offset `(dx, dy)` belongs to the seeded disk of radius `r`:
/// both components lie in the half-open range `[-r, r)` (one fewer cell on
/// the positive side, preserved exactly for compatibility) and the offset is
/// within Euclidean distance `r` of the center.
pub open spec fn in_disk(r: int, dx: int, dy: int) -> bool {
    &&& -r <= dx < r
    &&& -r <= dy < r
    &&& dx * dx + dy * dy <= r * r
}

/// Whether the in-range cell `(cx, cy)` is the single-wrap image of some
/// disk offset around the anchor `(x, y)`.
pub open spec fn disk_covers(x: int, y: int, r: int, w: int, h: int, cx: int, cy: int) -> bool {
    exists|dx: int, dy: int|
        #[trigger] in_disk(r, dx, dy) && wrap1(x + dx, w) == cx && wrap1(y + dy, h) == cy
}

/// Partial disk coverage: only the offsets that precede `(ox, oy)` in the
/// row-major sweep order (all rows below `oy`, then the prefix of row `oy`).
pub open spec fn disk_covers_upto(
    x: int,
    y: int,
    r: int,
    w: int,
    h: int,
    cx: int,
    cy: int,
    oy: int,
    ox: int,
) -> bool {
    exists|dx: int, dy: int|
        #[trigger] in_disk(r, dx, dy) && (dy < oy || (dy == oy && dx < ox)) && wrap1(x + dx, w)
            == cx && wrap1(y + dy, h) == cy
}

/// No offset precedes the very first sweep position.
proof fn lemma_upto_empty(x: int, y: int, r: int, w: int, h: int, cx: int, cy: int)
    ensures
        !disk_covers_upto(x, y, r, w, h, cx, cy, -r, -r),
{
    if disk_covers_upto(x, y, r, w, h, cx, cy, -r, -r) {
        let (dx, dy) = choose|dx: int, dy: int|
            #[trigger] in_disk(r, dx, dy) && (dy < -r || (dy == -r && dx < -r)) && wrap1(x + dx, w)
                == cx && wrap1(y + dy, h) == cy;
        assert(false);
    }
}

/// Advancing the sweep by one position covers exactly that position's
/// single-wrap image (when it lies in the disk), and nothing else.
proof fn lemma_upto_step(
    x: int,
    y: int,
    r: int,
    w: int,
    h: int,
    cx: int,
    cy: int,
    oy: int,
    ox: int,
)
    requires
        -r <= ox < r,
        -r <= oy < r,
    ensures
        disk_covers_upto(x, y, r, w, h, cx, cy, oy, ox + 1) <==> (disk_covers_upto(
            x,
            y,
            r,
            w,
            h,
            cx,
            cy,
            oy,
            ox,
        ) || (in_disk(r, ox, oy) && wrap1(x + ox, w) == cx && wrap1(y + oy, h) == cy)),
{
    if disk_covers_upto(x, y, r, w, h, cx, cy, oy, ox + 1) {
        let (dx, dy) = choose|dx: int, dy: int|
            #[trigger] in_disk(r, dx, dy) && (dy < oy || (dy == oy && dx < ox + 1)) && wrap1(
                x + dx,
                w,
            ) == cx && wrap1(y + dy, h) == cy;
        if !(dy == oy && dx == ox) {
            assert(in_disk(r, dx, dy) && (dy < oy || (dy == oy && dx < ox)) && wrap1(x + dx, w)
                == cx && wrap1(y + dy, h) == cy);
        }
    }
    if disk_covers_upto(x, y, r, w, h, cx, cy, oy, ox) {
        let (dx, dy) = choose|dx: int, dy: int|
            #[trigger] in_disk(r, dx, dy) && (dy < oy || (dy == oy && dx < ox)) && wrap1(x + dx, w)
                == cx && wrap1(y + dy, h) == cy;
        assert(in_disk(r, dx, dy) && (dy < oy || (dy == oy && dx < ox + 1)) && wrap1(x + dx, w)
            == cx && wrap1(y + dy, h) == cy);
    }
    if in_disk(r, ox, oy) && wrap1(x + ox, w) == cx && wrap1(y + oy, h) == cy {
        assert(in_disk(r, ox, oy) && (oy < oy || (oy == oy && ox < ox + 1)) && wrap1(x + ox, w)
            == cx && wrap1(y + oy, h) == cy);
    }
}

/// Finishing a row of the sweep is the same as standing at the start of the
/// next row.
proof fn lemma_upto_row(x: int, y: int, r: int, w: int, h: int, cx: int, cy: int, oy: int)
    requires
        -r <= oy < r,
    ensures
        disk_covers_upto(x, y, r, w, h, cx, cy, oy, r) <==> disk_covers_upto(
            x,
            y,
            r,
            w,
            h,
            cx,
            cy,
            oy + 1,
            -r,
        ),
{
    if disk_covers_upto(x, y, r, w, h, cx, cy, oy, r) {
        let (dx, dy) = choose|dx: int, dy: int|
            #[trigger] in_disk(r, dx, dy) && (dy < oy || (dy == oy && dx < r)) && wrap1(x + dx, w)
                == cx && wrap1(y + dy, h) == cy;
        assert(in_disk(r, dx, dy) && (dy < oy + 1 || (dy == oy + 1 && dx < -r)) && wrap1(x + dx, w)
            == cx && wrap1(y + dy, h) == cy);
    }
    if disk_covers_upto(x, y, r, w, h, cx, cy, oy + 1, -r) {
        let (dx, dy) = choose|dx: int, dy: int|
            #[trigger] in_disk(r, dx, dy) && (dy < oy + 1 || (dy == oy + 1 && dx < -r)) && wrap1(
                x + dx,
                w,
            ) == cx && wrap1(y + dy, h) == cy;
        assert(in_disk(r, dx, dy) && (dy < oy || (dy == oy && dx < r)) && wrap1(x + dx, w) == cx
            && wrap1(y + dy, h) == cy);
    }
}

/// After the last sweep position, partial coverage is full disk coverage.
proof fn lemma_upto_full(x: int, y: int, r: int, w: int, h: int, cx: int, cy: int)
    ensures
        disk_covers_upto(x, y, r, w, h, cx, cy, r, -r) <==> disk_covers(x, y, r, w, h, cx, cy),
{
    if disk_covers_upto(x, y, r, w, h, cx, cy, r, -r) {
        let (dx, dy) = choose|dx: int, dy: int|
            #[trigger] in_disk(r, dx, dy) && (dy < r || (dy == r && dx < -r)) && wrap1(x + dx, w)
                == cx && wrap1(y + dy, h) == cy;
        assert(in_disk(r, dx, dy) && wrap1(x + dx, w) == cx && wrap1(y + dy, h) == cy);
    }
    if disk_covers(x, y, r, w, h, cx, cy) {
        let (dx, dy) = choose|dx: int, dy: int|
            #[trigger] in_disk(r, dx, dy) && wrap1(x + dx, w) == cx && wrap1(y + dy, h) == cy;
        assert(in_disk(r, dx, dy) && (dy < r || (dy == r && dx < -r)) && wrap1(x + dx, w) == cx
            && wrap1(y + dy, h) == cy);
    }
}

/// Squares of offsets bounded by `s` are bounded by `s * s`.
proof fn lemma_square_bound(s: int, d: int) by (nonlinear_arith)
    requires
        -s <= d <= s,
    ensures
        0 <= d * d <= s * s,
{
}

/// The x offset of the `k`-th stencil position: the Moore neighborhood in
/// row-major order, center included.
pub open spec fn off_x(k: int) -> int {
    if k == 0 || k == 3 || k == 6 {
        -1
    } else if k == 1 || k == 4 || k == 7 {
        0
    } else {
        1
    }
}

/// The y offset of the `k`-th stencil position.
pub open spec fn off_y(k: int) -> int {
    if k <= 2 {
        -1
    } else if k <= 5 {
        0
    } else {
        1
    }
}

/// The weight of the `k`-th stencil position: `-1.0` at the center, `0.2` on
/// the four axis-adjacent neighbors, `0.05` on the four diagonal neighbors.
/// The weights sum to zero in exact arithmetic, which keeps the diffusion
/// term conservative.
pub open spec fn weight_bits_at(k: int) -> u64 {
    if k == 4 {
        W_CENTER_BITS
    } else if k == 1 || k == 3 || k == 5 || k == 7 {
        W_ADJACENT_BITS
    } else {
        W_DIAGONAL_BITS
    }
}

/// The `k`-th stencil offset as a coordinate pair.
fn stencil_offset(k: usize) -> (r: (isize, isize))
    requires
        k < 9,
    ensures
        r.0 == off_x(k as int),
        r.1 == off_y(k as int),
{
    if k == 0 {
        (-1, -1)
    } else if k == 1 {
        (0, -1)
    } else if k == 2 {
        (1, -1)
    } else if k == 3 {
        (-1, 0)
    } else if k == 4 {
        (0, 0)
    } else if k == 5 {
        (1, 0)
    } else if k == 6 {
        (-1, 1)
    } else if k == 7 {
        (0, 1)
    } else {
        (1, 1)
    }
}

/// The `k`-th stencil weight as a binary64 bit pattern.
fn stencil_weight(k: usize) -> (r: u64)
    requires
        k < 9,
    ensures
        r == weight_bits_at(k as int),
{
    if k == 4 {
        W_CENTER_BITS
    } else if k == 1 || k == 3 || k == 5 || k == 7 {
        W_ADJACENT_BITS
    } else {
        W_DIAGONAL_BITS
    }
}

/// The running sum of the first `k` weighted stencil terms at `(x, y)`,
/// accumulated left to right from `0.0` exactly as the executable loop does.
pub open spec fn lap_partial(s: Seq<u64>, w: int, h: int, x: int, y: int, k: int) -> u64
    decreases k,
{
    if k <= 0 {
        F64_ZERO_BITS
    } else {
        add_bits(
            lap_partial(s, w, h, x, y, k - 1),
            mul_bits(weight_bits_at(k - 1), s[idx_spec(x + off_x(k - 1), y + off_y(k - 1), w, h)]),
        )
    }
}

/// The discrete Laplacian of the field `s` at the in-range cell `(x, y)`:
/// the weighted sum over the full Moore neighborhood, with toroidal
/// wrapping at the borders.
pub open spec fn laplacian_at(s: Seq<u64>, w: int, h: int, x: int, y: int) -> u64 {
    lap_partial(s, w, h, x, y, 9)
}

/// The post-step value of field A at the in-range cell `(cx, cy)`: the
/// explicit Euler update `A + (d_a * Laplacian(A) - A*B^2 + f*(1 - A)) * dt`
/// evaluated in binary64 in left-to-right order and passed through the
/// stability clamp. `ga` and `gb` are the pre-step fields.
pub open spec fn new_a_at(
    ga: Seq<u64>,
    gb: Seq<u64>,
    w: int,
    h: int,
    d_a: u64,
    f: u64,
    dt: u64,
    cx: int,
    cy: int,
) -> u64 {
    let a = cell(ga, w, cx, cy);
    let b = cell(gb, w, cx, cy);
    let abb = mul_bits(mul_bits(a, b), b);
    let lap = laplacian_at(ga, w, h, cx, cy);
    clamp_bits(
        add_bits(
            a,
            mul_bits(
                add_bits(sub_bits(mul_bits(d_a, lap), abb), mul_bits(f, sub_bits(F64_ONE_BITS, a))),
                dt,
            ),
        ),
    )
}

/// The post-step value of field B at the in-range cell `(cx, cy)`: the
/// explicit Euler update `B + (d_b * Laplacian(B) + A*B^2 - (k + f)*B) * dt`
/// evaluated in binary64 in left-to-right order and passed through the
/// stability clamp. `ga` is the field A buffer current during the B pass
/// (already holding post-step values); `gb` is the pre-step field B.
pub open spec fn new_b_at(
    ga: Seq<u64>,
    gb: Seq<u64>,
    w: int,
    h: int,
    d_b: u64,
    k: u64,
    f: u64,
    dt: u64,
    cx: int,
    cy: int,
) -> u64 {
    let a = cell(ga, w, cx, cy);
    let b = cell(gb, w, cx, cy);
    let abb = mul_bits(mul_bits(a, b), b);
    let lap = laplacian_at(gb, w, h, cx, cy);
    clamp_bits(
        add_bits(
            b,
            mul_bits(sub_bits(add_bits(mul_bits(d_b, lap), abb), mul_bits(add_bits(k, f), b)), dt),
        ),
    )
}

/// The whole post-step field A as a function of the pre-step fields, the
/// dimensions, the parameters and the time increment.
pub open spec fn stepped_a(
    ga: Seq<u64>,
    gb: Seq<u64>,
    w: int,
    h: int,
    d_a: u64,
    f: u64,
    dt: u64,
) -> Seq<u64> {
    Seq::new((w * h) as nat, |j: int| new_a_at(ga, gb, w, h, d_a, f, dt, j % w, j / w))
}

/// The whole post-step field B as a function of the post-step field A, the
/// pre-step field B, the dimensions, the parameters and the time increment.
pub open spec fn stepped_b(
    ga: Seq<u64>,
    gb: Seq<u64>,
    w: int,
    h: int,
    d_b: u64,
    k: u64,
    f: u64,
    dt: u64,
) -> Seq<u64> {
    Seq::new((w * h) as nat, |j: int| new_b_at(ga, gb, w, h, d_b, k, f, dt, j % w, j / w))
}

/// Writing one in-range cell of a pass's scratch buffer changes exactly that
/// cell.
proof fn lemma_pass_cell_update(
    prev: Seq<u64>,
    cur: Seq<u64>,
    w: int,
    h: int,
    x: int,
    y: int,
    val: u64,
)
    requires
        1 <= w,
        1 <= h,
        prev.len() == w * h,
        0 <= x < w,
        0 <= y < h,
        cur == prev.update(y * w + x, val),
    ensures
        cur.len() == w * h,
        forall|cx: int, cy: int|
            0 <= cx < w && 0 <= cy < h ==> #[trigger] cell(cur, w, cx, cy) == (if cx == x && cy
                == y {
                val
            } else {
                cell(prev, w, cx, cy)
            }),
{
    lemma_linear_offset_in_range(w, h, x, y);
    assert(cur.len() == prev.len());
    assert forall|cx: int, cy: int| 0 <= cx < w && 0 <= cy < h implies #[trigger] cell(
        cur,
        w,
        cx,
        cy,
    ) == (if cx == x && cy == y {
        val
    } else {
        cell(prev, w, cx, cy)
    }) by {
        lemma_linear_offset_in_range(w, h, cx, cy);
        lemma_row_major_inj(w, cx, cy, x, y);
    }
}

/// A linear row-major offset splits into a unique in-range column and row.
proof fn lemma_row_major_split(w: int, h: int, j: int) by (nonlinear_arith)
    requires
        1 <= w,
        1 <= h,
        0 <= j < w * h,
    ensures
        0 <= j % w < w,
        0 <= j / w < h,
        (j / w) * w + (j % w) == j,
{
}

/// A valid in-range cell's linear offset lies below `w * h`.
proof fn lemma_linear_offset_in_range(w: int, h: int, nx: int, ny: int) by (nonlinear_arith)
    requires
        1 <= w,
        1 <= h,
        0 <= nx < w,
        0 <= ny < h,
    ensures
        0 <= ny * w + nx < w * h,
{
}

/// General positive modulus: unlike the single-wrap indexer it accepts a
/// coordinate of arbitrary magnitude. On the single-wrap domain the two
/// agree (see the wrap law in the laws module).
pub fn modulus(a: isize, b: usize) -> (r: usize)
    requires
        1 <= b,
        2 * (b as int) <= isize::MAX as int,
    ensures
        r == (a as int) % (b as int),
        r < b,
{
    let ib = b as isize;
    let t = a % ib;
    proof {
        let ai = a as int;
        let bi = b as int;
        if a < 0 {
            let u = -ai;
            vstd::arithmetic::div_mod::lemma_mod_bound(u, bi);
            vstd::arithmetic::div_mod::lemma_fundamental_div_mod(u, bi);
            let q = u / bi;
            let s0 = u % bi;
            assert((-q) * bi == -(bi * q) && (-q - 1) * bi == -(bi * q) - bi) by (nonlinear_arith);
            if s0 == 0 {
                vstd::arithmetic::div_mod::lemma_fundamental_div_mod_converse(ai, bi, -q, 0);
            } else {
                vstd::arithmetic::div_mod::lemma_fundamental_div_mod_converse(
                    ai,
                    bi,
                    -q - 1,
                    bi - s0,
                );
            }
        } else {
            vstd::arithmetic::div_mod::lemma_mod_bound(ai, bi);
        }
    }
    let s = t + ib;
    let r2 = s % ib;
    proof {
        let bi = b as int;
        let si = s as int;
        if si < bi {
            vstd::arithmetic::div_mod::lemma_small_mod(si as nat, bi as nat);
        } else if si == bi {
            vstd::arithmetic::div_mod::lemma_mod_self_0(bi);
        } else {
            vstd::arithmetic::div_mod::lemma_fundamental_div_mod_converse(si, bi, 1, si - bi);
        }
    }
    r2 as usize
}

} // verus!
