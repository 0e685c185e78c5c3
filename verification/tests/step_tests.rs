//! Tests for the stability clamp, the discrete Laplacian, and the step
//! integrator, checked bit-for-bit against plain `f64` arithmetic.

use gray_scott::fp::{
    softclamp, F64_HUNDRED_BITS, F64_NEG_HUNDRED_BITS, F64_ONE_BITS, F64_ZERO_BITS,
    W_ADJACENT_BITS, W_CENTER_BITS, W_DIAGONAL_BITS,
};
use gray_scott::grid::{Field, ReactionDiffusionGrid};

fn bits(x: f64) -> u64 {
    x.to_bits()
}

const OFFSETS: [(isize, isize); 9] =
    [(-1, -1), (0, -1), (1, -1), (-1, 0), (0, 0), (1, 0), (-1, 1), (0, 1), (1, 1)];

const WEIGHTS: [f64; 9] = [0.05, 0.2, 0.05, 0.2, -1.0, 0.2, 0.05, 0.2, 0.05];

fn ref_clamp(v: f64) -> f64 {
    if v < -100.0 {
        -100.0
    } else if v > 100.0 {
        100.0
    } else {
        v
    }
}

fn ref_idx(x: isize, y: isize, w: isize, h: isize) -> usize {
    let nx = if x < 0 {
        x + w
    } else if x >= w {
        x - w
    } else {
        x
    };
    let ny = if y < 0 {
        y + h
    } else if y >= h {
        y - h
    } else {
        y
    };
    (ny * w + nx) as usize
}

fn ref_laplacian(field: &[f64], w: isize, h: isize, x: isize, y: isize) -> f64 {
    let mut acc = 0.0;
    for k in 0..9 {
        let (ox, oy) = OFFSETS[k];
        acc += WEIGHTS[k] * field[ref_idx(x + ox, y + oy, w, h)];
    }
    acc
}

/// One full explicit Euler step in plain `f64`, mirroring the integrator:
/// field A is recomputed and committed first, then field B reads the
/// committed A.
fn ref_update(
    ga: &mut Vec<f64>,
    gb: &mut Vec<f64>,
    w: isize,
    h: isize,
    d_a: f64,
    d_b: f64,
    f: f64,
    k: f64,
    dt: f64,
) {
    let mut tmp = vec![0.0; (w * h) as usize];
    for y in 0..h {
        for x in 0..w {
            let i = ref_idx(x, y, w, h);
            let a = ga[i];
            let b = gb[i];
            let abb = a * b * b;
            let lap = ref_laplacian(ga, w, h, x, y);
            tmp[i] = ref_clamp(ga[i] + (d_a * lap - abb + f * (1.0 - a)) * dt);
        }
    }
    *ga = tmp.clone();
    for y in 0..h {
        for x in 0..w {
            let i = ref_idx(x, y, w, h);
            let a = ga[i];
            let b = gb[i];
            let abb = a * b * b;
            let lap = ref_laplacian(gb, w, h, x, y);
            tmp[i] = ref_clamp(gb[i] + (d_b * lap + abb - (k + f) * b) * dt);
        }
    }
    *gb = tmp;
}

#[test]
fn weight_constants_are_the_documented_values() {
    assert_eq!(W_CENTER_BITS, bits(-1.0));
    assert_eq!(W_ADJACENT_BITS, bits(0.2));
    assert_eq!(W_DIAGONAL_BITS, bits(0.05));
    assert_eq!(F64_ZERO_BITS, bits(0.0));
    assert_eq!(F64_ONE_BITS, bits(1.0));
    assert_eq!(F64_HUNDRED_BITS, bits(100.0));
    assert_eq!(F64_NEG_HUNDRED_BITS, bits(-100.0));
}

#[test]
fn clamp_bounds_and_passes_through() {
    assert_eq!(softclamp(bits(150.0)), bits(100.0));
    assert_eq!(softclamp(bits(-150.0)), bits(-100.0));
    assert_eq!(softclamp(bits(50.0)), bits(50.0));
    assert_eq!(softclamp(bits(100.0)), bits(100.0));
    assert_eq!(softclamp(bits(-100.0)), bits(-100.0));
    assert_eq!(softclamp(bits(0.0)), bits(0.0));
}

#[test]
fn laplacian_of_uniform_field_is_zero() {
    // Exact zero holds for values whose weighted partial sums do not round,
    // such as 0.0 and 100.0.
    for v in [0.0, 100.0] {
        let mut g = ReactionDiffusionGrid::new(5, 5, bits(1.0), bits(0.5), bits(0.055), bits(0.062));
        g.seed(Field::A, 0, 0, 5, 5, bits(v));
        for y in 0..5 {
            for x in 0..5 {
                assert_eq!(g.laplacian(Field::A, x, y), bits(0.0), "v = {v} at ({x}, {y})");
            }
        }
    }
}

#[test]
fn laplacian_of_uniform_one_leaves_a_rounding_residue() {
    // With v = 1.0 the left-to-right binary64 accumulation of the nine
    // weighted terms does not cancel exactly: it leaves 2^-56.
    let mut g = ReactionDiffusionGrid::new(5, 5, bits(1.0), bits(0.5), bits(0.055), bits(0.062));
    g.seed(Field::A, 0, 0, 5, 5, bits(1.0));
    let residue = f64::powi(2.0, -56);
    assert_eq!(g.laplacian(Field::A, 2, 2), bits(residue));
    assert_eq!(bits(ref_laplacian(&vec![1.0; 25], 5, 5, 2, 2)), bits(residue));
}

#[test]
fn laplacian_matches_reference_arithmetic() {
    let mut g = ReactionDiffusionGrid::new(4, 3, bits(1.0), bits(0.5), bits(0.055), bits(0.062));
    let mut reference = vec![0.0f64; 12];
    let cells = [(0isize, 0isize, 0.75), (1, 0, -2.5), (3, 2, 0.3), (2, 1, 11.0)];
    for &(x, y, v) in cells.iter() {
        g.set_grid_val(Field::B, x, y, bits(v));
        reference[ref_idx(x, y, 4, 3)] = v;
    }
    for y in 0..3isize {
        for x in 0..4isize {
            let expected = ref_laplacian(&reference, 4, 3, x, y);
            assert_eq!(g.laplacian(Field::B, x, y), bits(expected), "cell ({x}, {y})");
        }
    }
}

#[test]
fn step_is_deterministic() {
    let mut first = ReactionDiffusionGrid::new(8, 8, bits(1.0), bits(0.5), bits(0.055), bits(0.062));
    first.seed(Field::A, 0, 0, 8, 8, bits(1.0));
    first.seed_round(Field::B, 4, 4, 2, bits(1.0));
    let mut second =
        ReactionDiffusionGrid::new(8, 8, bits(1.0), bits(0.5), bits(0.055), bits(0.062));
    second.seed(Field::A, 0, 0, 8, 8, bits(1.0));
    second.seed_round(Field::B, 4, 4, 2, bits(1.0));
    first.update(bits(1.0));
    first.update(bits(1.0));
    second.update(bits(1.0));
    second.update(bits(1.0));
    for y in 0..8isize {
        for x in 0..8isize {
            assert_eq!(first.grid_val(Field::A, x, y), second.grid_val(Field::A, x, y));
            assert_eq!(first.grid_val(Field::B, x, y), second.grid_val(Field::B, x, y));
        }
    }
}

#[test]
fn step_matches_reference_arithmetic_end_to_end() {
    let mut g = ReactionDiffusionGrid::new(10, 10, bits(1.0), bits(0.5), bits(0.055), bits(0.062));
    g.seed(Field::A, 0, 0, 10, 10, bits(1.0));
    g.seed(Field::B, 4, 4, 2, 2, bits(1.0));

    let mut ref_a = vec![1.0f64; 100];
    let mut ref_b = vec![0.0f64; 100];
    for y in 4..6 {
        for x in 4..6 {
            ref_b[ref_idx(x, y, 10, 10)] = 1.0;
        }
    }

    g.update(bits(1.0));
    ref_update(&mut ref_a, &mut ref_b, 10, 10, 1.0, 0.5, 0.055, 0.062, 1.0);

    // The seeded cell itself: pre-step A = 1.0, B = 1.0.
    let expected_a44 = ref_clamp(
        1.0 + (1.0 * ref_laplacian(&vec![1.0; 100], 10, 10, 4, 4) - 1.0 + 0.055 * (1.0 - 1.0))
            * 1.0,
    );
    assert_eq!(g.grid_val(Field::A, 4, 4), bits(expected_a44));

    for y in 0..10isize {
        for x in 0..10isize {
            let i = ref_idx(x, y, 10, 10);
            assert_eq!(g.grid_val(Field::A, x, y), bits(ref_a[i]), "field A cell ({x}, {y})");
            assert_eq!(g.grid_val(Field::B, x, y), bits(ref_b[i]), "field B cell ({x}, {y})");
        }
    }
}

#[test]
fn step_clamps_diverging_values() {
    let mut g = ReactionDiffusionGrid::new(3, 3, bits(0.0), bits(0.0), bits(0.0), bits(0.0));
    g.seed(Field::A, 0, 0, 3, 3, bits(500.0));
    g.seed(Field::B, 0, 0, 3, 3, bits(-500.0));
    g.update(bits(1.0));
    // With zero diffusion and zero rates, A' = clamp(A - A*B*B * dt) and
    // B' = clamp(B + A'*B*B * dt), far outside the stability bounds.
    for y in 0..3isize {
        for x in 0..3isize {
            assert_eq!(g.grid_val(Field::A, x, y), bits(-100.0));
            assert_eq!(g.grid_val(Field::B, x, y), bits(-100.0));
        }
    }
}
