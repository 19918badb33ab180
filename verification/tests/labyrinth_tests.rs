use ray_cast::labyrinth::{Cell, Labyrinth, Side};
use ray_cast::num::{div_floor_i128, gcd_u128, isqrt_u128};

#[test]
fn cell_sides_open_and_close() {
    let mut cell = Cell::new();
    assert_eq!(cell.get_sides(), 0b0000_1111);
    assert!(cell.is_closed(Side::Top));
    assert!(cell.is_closed(Side::Bottom));
    assert!(cell.is_closed(Side::Left));
    assert!(cell.is_closed(Side::Right));
    cell.open(Side::Top);
    assert!(cell.is_open(Side::Top));
    assert!(cell.is_closed(Side::Bottom));
    cell.open(Side::Right);
    assert!(cell.is_open(Side::Right));
    assert_eq!(cell.get_sides(), 0b0000_0110);
    let empty = Cell::new_empty();
    assert!(empty.is_open(Side::Top));
    assert!(empty.is_open(Side::Right));
}

#[test]
fn right_side_test_also_checks_the_high_bit() {
    // The right-side test looks at bit four too; ordinary cells never set
    // it, but a raw cell that does reads as closed on the right.
    let odd = Cell { sides: 0b0001_0000 };
    assert!(odd.is_closed(Side::Right));
    assert!(odd.is_open(Side::Left));
}

#[test]
fn fresh_labyrinth_walls_cell_by_cell() {
    let lab = Labyrinth::new(5, (2, 2));
    let lines = lab.get_as_lines_explicit();
    // four fully closed cells, four walls each
    assert_eq!(lines.len(), 16);
    // the first cell's walls: top, bottom, left, right
    assert_eq!(lines[0], ((0, 0), (5, 0)));
    assert_eq!(lines[1], ((0, 5), (5, 5)));
    assert_eq!(lines[2], ((0, 0), (0, 5)));
    assert_eq!(lines[3], ((5, 0), (5, 5)));
}

#[test]
fn merged_walls_of_a_single_cell() {
    let lab = Labyrinth::new(5, (1, 1));
    let lines = lab.get_as_lines();
    assert_eq!(
        lines,
        vec![
            ((0, 0), (5, 0)),
            ((0, 5), (5, 5)),
            ((0, 0), (0, 5)),
            ((5, 0), (5, 5)),
        ]
    );
}

#[test]
fn merged_walls_join_collinear_runs() {
    // A fully closed 3 x 1 labyrinth: the top border merges into one long
    // wall only where the right sides are open, so with all walls closed
    // each cell's top is flushed separately; open the inner walls and the
    // top border becomes a single segment.
    let mut lab = Labyrinth::new(10, (3, 1));
    lab.cells[0][0].open(Side::Right);
    lab.cells[0][1].open(Side::Left);
    lab.cells[0][1].open(Side::Right);
    lab.cells[0][2].open(Side::Left);
    let lines = lab.get_as_lines();
    // top border: one merged run across all three cells
    assert_eq!(lines[0], ((0, 0), (30, 0)));
    // bottom border: likewise one merged run (below is the outside)
    assert!(lines.contains(&((0, 10), (30, 10))));
}

#[test]
fn generated_maze_keeps_its_shape() {
    let mut lab = Labyrinth::new(5, (4, 4));
    let rand: Vec<u64> = (0..64u64).map(|v| v.wrapping_mul(0x9E37_79B9_7F4A_7C15)).collect();
    lab.generate_depth_first(&rand);
    assert_eq!(lab.size, (4, 4));
    assert_eq!(lab.cells.len(), 4);
    for row in lab.get_cells() {
        assert_eq!(row.len(), 4);
        for cell in row {
            assert!(cell.get_sides() < 16);
        }
    }
    // a maze on more than one cell opens at least one wall somewhere
    let open_count = lab
        .get_cells()
        .iter()
        .flatten()
        .filter(|c| c.get_sides() != 0b0000_1111)
        .count();
    assert!(open_count > 0);
    // walls that were opened come in pairs: the shared wall is open from
    // both sides
    for y in 0..4usize {
        for x in 0..3usize {
            let here = lab.cells[y][x];
            let right = lab.cells[y][x + 1];
            assert_eq!(here.is_open(Side::Right), right.is_open(Side::Left));
        }
    }
    for y in 0..3usize {
        for x in 0..4usize {
            let here = lab.cells[y][x];
            let below = lab.cells[y + 1][x];
            assert_eq!(here.is_open(Side::Bottom), below.is_open(Side::Top));
        }
    }
    // the outer boundary is never opened
    for y in 0..4usize {
        assert!(lab.cells[y][0].is_closed(Side::Left));
        assert!(lab.cells[y][3].is_closed(Side::Right));
    }
    for x in 0..4usize {
        assert!(lab.cells[0][x].is_closed(Side::Top));
        assert!(lab.cells[3][x].is_closed(Side::Bottom));
    }
}

#[test]
fn second_generator_also_keeps_its_shape() {
    let mut lab = Labyrinth::new(3, (3, 3));
    let rand: Vec<u64> = vec![12; 32];
    lab.generate_depth_first2(&rand);
    assert_eq!(lab.size, (3, 3));
    assert_eq!(lab.cells.len(), 3);
}

#[test]
fn arithmetic_helpers_are_exact() {
    assert_eq!(gcd_u128(12, 18), 6);
    assert_eq!(gcd_u128(0, 7), 7);
    assert_eq!(isqrt_u128(0), 0);
    assert_eq!(isqrt_u128(24), 4);
    assert_eq!(isqrt_u128(25), 5);
    assert_eq!(div_floor_i128(7, 2), 3);
    assert_eq!(div_floor_i128(-7, 2), -4);
    assert_eq!(div_floor_i128(-8, 2), -4);
}
