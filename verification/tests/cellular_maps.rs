use cellular_maps::CellularMap;
use cellular_maps::EvolveStrategy;

#[test]
fn constructor_test() {
    let cm = CellularMap::new(12, 12);

    assert!(12 == cm.get_width());
    assert!(12 == cm.get_height());
}

#[test]
fn get_element_test() {
    let mut cm = CellularMap::new(12, 12);
    cm.set_element(0, 4, 2u8);
    assert_eq!(2u8, cm.get_element(0, 4));
}

#[test]
fn fresh_map_is_all_floor() {
    let cm = CellularMap::new(4, 7);
    assert_eq!(4, cm.get_width());
    assert_eq!(7, cm.get_height());
    for r in 0..cm.get_height() {
        for c in 0..cm.get_width() {
            assert_eq!(0u8, cm.get_element(r, c));
        }
    }
}

#[test]
fn degenerate_dimensions() {
    let mut cm = CellularMap::new(0, 0);
    assert_eq!(0, cm.get_width());
    assert_eq!(0, cm.get_height());
    cm.random_fill(50);
    cm.evolve_default();

    let mut thin = CellularMap::new(0, 5);
    thin.random_fill(50);
    thin.evolve_default();
    assert_eq!(0, thin.get_width());
    assert_eq!(5, thin.get_height());
}

#[test]
fn random_fill_border_and_corridor() {
    let mut cm = CellularMap::new(9, 7);
    cm.random_fill(40);
    for r in 0..7 {
        for c in 0..9 {
            let on_border = r == 0 || c == 0 || r == 6 || c == 8;
            let state = cm.get_element(r, c);
            if on_border {
                assert_eq!(1u8, state);
            } else if r == 3 {
                // height / 2 == 3: the guaranteed corridor row.
                assert_eq!(0u8, state);
            } else {
                assert!(state == 0u8 || state == 1u8);
            }
        }
    }
}

#[test]
fn random_fill_zero_probability_is_all_floor_inside() {
    let mut cm = CellularMap::new(10, 8);
    cm.random_fill(0);
    for r in 1..7 {
        for c in 1..9 {
            assert_eq!(0u8, cm.get_element(r, c));
        }
    }
}

#[test]
fn random_fill_full_probability_is_all_wall_inside() {
    let mut cm = CellularMap::new(10, 8);
    cm.random_fill(100);
    for r in 1..7 {
        for c in 1..9 {
            if r == 4 {
                // The corridor row stays floor even at 100% wall probability.
                assert_eq!(0u8, cm.get_element(r, c));
            } else {
                assert_eq!(1u8, cm.get_element(r, c));
            }
        }
    }
}

#[test]
fn random_fill_rerandomizes_every_cell() {
    let mut cm = CellularMap::new(8, 8);
    cm.random_fill(100);
    cm.random_fill(0);
    for r in 1..7 {
        for c in 1..7 {
            if r != 4 {
                assert_eq!(0u8, cm.get_element(r, c));
            }
        }
    }
}

#[test]
fn count_isolated_wall_has_no_neighbours() {
    let mut cm = CellularMap::new(7, 7);
    cm.set_element(3, 3, 1);
    // The center itself is excluded; all eight neighbours are floor.
    assert_eq!(0, cm.count_adjacent_wall(3, 3, 1, 1));
}

#[test]
fn count_surrounded_by_walls_is_eight() {
    let mut cm = CellularMap::new(3, 3);
    for r in 0..3 {
        for c in 0..3 {
            cm.set_element(r, c, 1);
        }
    }
    // Every in-grid neighbour is a wall and the rest lie out of bounds;
    // both kinds count, so the full ring of 8 is reported.
    assert_eq!(8, cm.count_adjacent_wall(1, 1, 1, 1));
}

#[test]
fn count_at_corner_includes_out_of_bounds() {
    let cm = CellularMap::new(5, 5);
    // All cells are floor: only the 5 out-of-bounds window positions count.
    assert_eq!(5, cm.count_adjacent_wall(0, 0, 1, 1));
}

#[test]
fn count_radius_two_window() {
    let cm = CellularMap::new(9, 9);
    // A 5x5 window centered at (4, 4) lies fully inside an all-floor grid.
    assert_eq!(0, cm.count_adjacent_wall(4, 4, 2, 2));
    // Centered at the corner, 5 + 5 + 5 + 5 + 5 - 4 - 1 + ... : of the 25
    // window positions, 9 are in bounds (all floor) and 16 out of bounds.
    assert_eq!(16, cm.count_adjacent_wall(0, 0, 2, 2));
}

#[test]
fn count_counts_any_nonzero_state() {
    let mut cm = CellularMap::new(7, 7);
    cm.set_element(3, 4, 2);
    assert_eq!(1, cm.count_adjacent_wall(3, 3, 1, 1));
}

#[test]
fn evolve_fills_single_floor_cell() {
    let mut cm = CellularMap::new(5, 5);
    for r in 0..5 {
        for c in 0..5 {
            cm.set_element(r, c, 1);
        }
    }
    cm.set_element(2, 2, 0);
    cm.evolve_default();
    // The center saw 8 walls in its 3x3 window, so it became a wall too.
    for r in 0..5 {
        for c in 0..5 {
            assert_eq!(1u8, cm.get_element(r, c));
        }
    }
}

#[test]
fn evolve_keeps_all_walls() {
    let mut cm = CellularMap::new(6, 6);
    for r in 0..6 {
        for c in 0..6 {
            cm.set_element(r, c, 1);
        }
    }
    cm.evolve(EvolveStrategy::Default);
    for r in 0..6 {
        for c in 0..6 {
            assert_eq!(1u8, cm.get_element(r, c));
        }
    }
}

#[test]
fn cleaning_strategy_evolves_like_default() {
    let mut a = CellularMap::new(7, 7);
    let mut b = CellularMap::new(7, 7);
    for r in 0..7 {
        for c in 0..7 {
            let state = if (r * 7 + c) % 3 == 0 { 1u8 } else { 0u8 };
            a.set_element(r, c, state);
            b.set_element(r, c, state);
        }
    }
    a.evolve(EvolveStrategy::Default);
    b.evolve(EvolveStrategy::Cleaning);
    for r in 0..7 {
        for c in 0..7 {
            assert_eq!(a.get_element(r, c), b.get_element(r, c));
        }
    }
}

#[test]
fn evolve_is_deterministic_in_the_starting_state() {
    let mut a = CellularMap::new(8, 6);
    let mut b = CellularMap::new(8, 6);
    for r in 0..6 {
        for c in 0..8 {
            let state = if (3 * r + 5 * c) % 4 == 0 { 1u8 } else { 0u8 };
            a.set_element(r, c, state);
            b.set_element(r, c, state);
        }
    }
    a.evolve_default();
    b.evolve_default();
    for r in 0..6 {
        for c in 0..8 {
            assert_eq!(a.get_element(r, c), b.get_element(r, c));
        }
    }
}

#[test]
fn evolve_reads_the_starting_snapshot_only() {
    // Row-by-row in-place updating would let early writes leak into later
    // neighbour counts; the contract forbids that. Exact expected states
    // below are computed by hand from the starting grid alone.
    //
    // Starting 5x5 grid (row 2 is all wall, rest floor):
    //   .....
    //   .....
    //   #####
    //   .....
    //   .....
    let mut cm = CellularMap::new(5, 5);
    for c in 0..5 {
        cm.set_element(2, c, 1);
    }
    cm.evolve_default();
    // Cell (0, 0): floor, 3x3 window has 5 out-of-bounds positions, n1 = 5,
    // becomes wall. Cell (1, 2): floor, n1 = 3 (three walls below), and its
    // 5x5 window holds n2 = 5 (out of bounds) + 5 (walls) = 10, stays floor.
    // Cell (2, 2): wall with n1 = 2 (left and right walls), falls to floor.
    assert_eq!(1u8, cm.get_element(0, 0));
    assert_eq!(0u8, cm.get_element(1, 2));
    assert_eq!(0u8, cm.get_element(2, 2));
}
