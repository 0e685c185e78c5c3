//! Tests for construction, toroidal indexing, and the seeding primitives.

use gray_scott::grid::{modulus, Field, ReactionDiffusionGrid};

fn bits(x: f64) -> u64 {
    x.to_bits()
}

fn fresh(width: usize, height: usize) -> ReactionDiffusionGrid {
    ReactionDiffusionGrid::new(width, height, bits(1.0), bits(0.5), bits(0.055), bits(0.062))
}

#[test]
fn new_grid_is_zeroed() {
    let g = fresh(6, 5);
    assert_eq!(g.width, 6);
    assert_eq!(g.height, 5);
    assert_eq!(g.d_a, bits(1.0));
    assert_eq!(g.d_b, bits(0.5));
    assert_eq!(g.f, bits(0.055));
    assert_eq!(g.k, bits(0.062));
    for y in 0..5 {
        for x in 0..6 {
            assert_eq!(g.grid_val(Field::A, x, y), bits(0.0));
            assert_eq!(g.grid_val(Field::B, x, y), bits(0.0));
        }
    }
}

#[test]
fn toroidal_wrap_at_borders() {
    let g = fresh(5, 4);
    assert_eq!(g.idx(-1, 0), g.idx(4, 0));
    assert_eq!(g.idx(5, 0), g.idx(0, 0));
    assert_eq!(g.idx(0, -1), g.idx(0, 3));
    assert_eq!(g.idx(0, 4), g.idx(0, 0));
    assert_eq!(g.idx(2, 1), 1 * 5 + 2);
}

#[test]
fn modulus_matches_positive_remainder() {
    assert_eq!(modulus(7, 5), 2);
    assert_eq!(modulus(-1, 5), 4);
    assert_eq!(modulus(-7, 5), 3);
    assert_eq!(modulus(10, 5), 0);
    assert_eq!(modulus(0, 1), 0);
    assert_eq!(modulus(-5, 5), 0);
}

#[test]
fn modulus_agrees_with_single_wrap_indexer_on_its_domain() {
    let g = fresh(5, 4);
    for x in -5..10isize {
        for y in -4..8isize {
            let wrapped_x = modulus(x, 5) as isize;
            let wrapped_y = modulus(y, 4) as isize;
            assert_eq!(g.idx(x, y), g.idx(wrapped_x, wrapped_y));
        }
    }
}

#[test]
fn grid_val_wraps_any_near_coordinate() {
    let mut g = fresh(6, 5);
    g.set_grid_val(Field::A, 0, 0, bits(3.25));
    assert_eq!(g.grid_val(Field::A, 6, 0), bits(3.25));
    assert_eq!(g.grid_val(Field::A, 0, 5), bits(3.25));
    assert_eq!(g.grid_val(Field::A, -6, -5), bits(3.25));
    assert_eq!(g.grid_val(Field::B, 0, 0), bits(0.0));
}

#[test]
fn set_grid_val_changes_one_cell_of_one_field() {
    let mut g = fresh(4, 4);
    g.set_grid_val(Field::B, -1, 2, bits(7.5));
    for y in 0..4 {
        for x in 0..4 {
            let expected = if x == 3 && y == 2 { bits(7.5) } else { bits(0.0) };
            assert_eq!(g.grid_val(Field::B, x, y), expected);
            assert_eq!(g.grid_val(Field::A, x, y), bits(0.0));
        }
    }
}

#[test]
fn seed_rect_sets_exactly_the_rectangle() {
    let mut g = fresh(6, 5);
    g.seed(Field::A, 1, 2, 3, 2, bits(2.5));
    for y in 0..5isize {
        for x in 0..6isize {
            let inside = (1..4).contains(&x) && (2..4).contains(&y);
            let expected = if inside { bits(2.5) } else { bits(0.0) };
            assert_eq!(g.grid_val(Field::A, x, y), expected, "cell ({x}, {y})");
            assert_eq!(g.grid_val(Field::B, x, y), bits(0.0));
        }
    }
}

#[test]
fn seed_rect_wraps_past_the_border() {
    let mut g = fresh(6, 5);
    g.seed(Field::B, 4, 3, 4, 3, bits(1.5));
    for y in 0..5isize {
        for x in 0..6isize {
            let col_hit = x >= 4 || x <= 1;
            let row_hit = y >= 3 || y == 0;
            let expected = if col_hit && row_hit { bits(1.5) } else { bits(0.0) };
            assert_eq!(g.grid_val(Field::B, x, y), expected, "cell ({x}, {y})");
        }
    }
}

#[test]
fn seed_rect_leaves_prior_values_outside() {
    let mut g = fresh(6, 5);
    g.seed(Field::A, 0, 0, 6, 5, bits(1.0));
    g.seed(Field::A, 2, 1, 2, 2, bits(0.25));
    for y in 0..5isize {
        for x in 0..6isize {
            let inside = (2..4).contains(&x) && (1..3).contains(&y);
            let expected = if inside { bits(0.25) } else { bits(1.0) };
            assert_eq!(g.grid_val(Field::A, x, y), expected, "cell ({x}, {y})");
        }
    }
}

#[test]
fn seed_disk_follows_the_radius_law() {
    let mut g = fresh(10, 10);
    g.seed_round(Field::B, 5, 5, 2, bits(4.0));
    for dx in -4..5isize {
        for dy in -4..5isize {
            let in_disk = (-2..2).contains(&dx) && (-2..2).contains(&dy) && dx * dx + dy * dy <= 4;
            let expected = if in_disk { bits(4.0) } else { bits(0.0) };
            assert_eq!(g.grid_val(Field::B, 5 + dx, 5 + dy), expected, "offset ({dx}, {dy})");
        }
    }
}

#[test]
fn seed_disk_half_open_range_is_asymmetric() {
    let mut g = fresh(10, 10);
    g.seed_round(Field::A, 5, 5, 2, bits(9.0));
    // The offset range [-r, r) includes -r but not r on each axis.
    assert_eq!(g.grid_val(Field::A, 3, 5), bits(9.0));
    assert_eq!(g.grid_val(Field::A, 7, 5), bits(0.0));
    assert_eq!(g.grid_val(Field::A, 5, 3), bits(9.0));
    assert_eq!(g.grid_val(Field::A, 5, 7), bits(0.0));
}

#[test]
fn seed_disk_wraps_past_the_border() {
    let mut g = fresh(8, 8);
    g.seed_round(Field::A, 0, 0, 1, bits(5.0));
    // Radius 1 covers offsets (-1, -1), (-1, 0), (0, -1), (0, 0) with
    // dx*dx + dy*dy <= 1, i.e. all but the diagonal one.
    assert_eq!(g.grid_val(Field::A, 0, 0), bits(5.0));
    assert_eq!(g.grid_val(Field::A, 7, 0), bits(5.0));
    assert_eq!(g.grid_val(Field::A, 0, 7), bits(5.0));
    assert_eq!(g.grid_val(Field::A, 7, 7), bits(0.0));
    for y in 0..8isize {
        for x in 1..7isize {
            if y != 0 {
                assert_eq!(g.grid_val(Field::A, x, y), bits(0.0));
            }
        }
    }
}

#[test]
fn seed_zero_extent_is_a_no_op() {
    let mut g = fresh(4, 4);
    g.seed(Field::A, 1, 1, 0, 3, bits(8.0));
    g.seed(Field::A, 1, 1, 3, 0, bits(8.0));
    g.seed_round(Field::B, 2, 2, 0, bits(8.0));
    for y in 0..4isize {
        for x in 0..4isize {
            assert_eq!(g.grid_val(Field::A, x, y), bits(0.0));
            assert_eq!(g.grid_val(Field::B, x, y), bits(0.0));
        }
    }
}
