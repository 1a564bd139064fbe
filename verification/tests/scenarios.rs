use the_pink_sand_simulator::cells::{Cell, CellKind, Cells};
use the_pink_sand_simulator::point::point;

fn place(w: &mut Cells, x: i32, y: i32, k: CellKind) {
    w.set_cell(point(x, y), Cell::new(k));
}

fn bedrock_row(w: &mut Cells, x0: i32, x1: i32, y: i32) {
    for x in x0..=x1 {
        place(w, x, y, CellKind::Bedrock);
    }
}

fn bedrock_column(w: &mut Cells, x: i32, y0: i32, y1: i32) {
    for y in y0..=y1 {
        place(w, x, y, CellKind::Bedrock);
    }
}

/// The coordinates in the given rectangle holding material `k`.
fn find_kind(w: &Cells, x0: i32, x1: i32, y0: i32, y1: i32, k: CellKind) -> Vec<(i32, i32)> {
    let mut out: Vec<(i32, i32)> = Vec::new();
    for x in x0..=x1 {
        for y in y0..=y1 {
            if w.cell_at(point(x, y)).kind == k {
                out.push((x, y));
            }
        }
    }
    out
}

#[test]
fn sand_falls_and_rests_on_bedrock() {
    let mut w = Cells::new();
    bedrock_row(&mut w, -2, 2, 0);
    place(&mut w, 0, 5, CellKind::Sand);
    for _ in 0i32..12 {
        w.update_all();
    }
    // sand over air falls with certainty, one cell per tick, and the
    // tumble targets beside the resting spot are walled off
    assert_eq!(w.cell_at(point(0, 1)).kind, CellKind::Sand);
    assert_eq!(w.cell_at(point(0, 5)).kind, CellKind::Air);
    assert_eq!(w.cell_at(point(0, 0)).kind, CellKind::Bedrock);
}

#[test]
fn sealed_sand_never_moves() {
    let mut w = Cells::new();
    for dx in -1i32..=1 {
        for dy in -1i32..=1 {
            if dx != 0 || dy != 0 {
                place(&mut w, dx, dy, CellKind::Bedrock);
            }
        }
    }
    place(&mut w, 0, 0, CellKind::Sand);
    for _ in 0i32..20 {
        w.update_all();
        assert_eq!(w.cell_at(point(0, 0)).kind, CellKind::Sand);
    }
}

#[test]
fn bedrock_unchanged_under_load() {
    let mut w = Cells::new();
    bedrock_row(&mut w, -3, 3, 0);
    place(&mut w, 0, 3, CellKind::Sand);
    place(&mut w, 1, 4, CellKind::Water);
    place(&mut w, -1, 5, CellKind::Hydrogen);
    for _ in 0i32..30 {
        w.update_all();
        for x in -3i32..=3 {
            assert_eq!(w.cell_at(point(x, 0)).kind, CellKind::Bedrock);
        }
    }
}

#[test]
fn material_is_conserved_inside_a_box() {
    let mut w = Cells::new();
    // a closed bedrock box with a mixed interior
    bedrock_row(&mut w, -6, 6, 0);
    bedrock_row(&mut w, -6, 6, 8);
    bedrock_column(&mut w, -6, 0, 8);
    bedrock_column(&mut w, 6, 0, 8);
    let fill = [
        CellKind::Sand,
        CellKind::Water,
        CellKind::Honey,
        CellKind::Hydrogen,
        CellKind::PinkSand,
        CellKind::BlueSand,
        CellKind::PurpleSand,
    ];
    let mut i: usize = 0;
    for x in -5i32..=5 {
        for y in 1i32..=3 {
            place(&mut w, x, y, fill[i % fill.len()]);
            i += 1;
        }
    }
    let count = |w: &Cells, k: CellKind| find_kind(w, -5, 5, 1, 7, k).len();
    let before: Vec<usize> = fill.iter().map(|&k| count(&w, k)).collect();
    for _ in 0i32..40 {
        w.update_all();
    }
    let after: Vec<usize> = fill.iter().map(|&k| count(&w, k)).collect();
    assert_eq!(before, after);
}

#[test]
fn water_drop_falls_to_the_floor_and_never_rises() {
    let mut w = Cells::new();
    bedrock_row(&mut w, -80, 80, 0);
    place(&mut w, 0, 8, CellKind::Water);
    let mut last_y: i32 = 8;
    for _ in 0i32..60 {
        w.update_all();
        let found = find_kind(&w, -80, 80, 1, 9, CellKind::Water);
        assert_eq!(found.len(), 1);
        let (x, y) = found[0];
        assert!(y <= last_y);
        last_y = y;
        // resting on the floor at most: never below it
        assert!(y >= 1);
        assert!(x.abs() <= 80);
    }
    // by now the drop has long reached the floor and rests on Bedrock
    let found = find_kind(&w, -80, 80, 1, 9, CellKind::Water);
    let (x, y) = found[0];
    assert_eq!(y, 1);
    assert_eq!(w.cell_at(point(x, 0)).kind, CellKind::Bedrock);
}

#[test]
fn pink_sand_tumbles_to_both_sides() {
    // the coin flip picks the tumble side afresh each invocation, so
    // over many worlds both diagonals are taken; the floor keeps the
    // grain from tumbling on within the same tick
    let mut left: u32 = 0;
    let mut right: u32 = 0;
    for _ in 0i32..100 {
        let mut w = Cells::new();
        bedrock_row(&mut w, -3, 3, 0);
        place(&mut w, 0, 2, CellKind::PinkSand);
        w.update_all();
        if w.cell_at(point(-1, 1)).kind == CellKind::PinkSand {
            left += 1;
        }
        if w.cell_at(point(1, 1)).kind == CellKind::PinkSand {
            right += 1;
        }
        // pink sand never falls straight down
        assert_eq!(w.cell_at(point(0, 1)).kind, CellKind::Air);
    }
    assert!(left > 0);
    assert!(right > 0);
    assert_eq!(left + right, 100);
}

#[test]
fn pink_sand_stays_when_both_diagonals_are_blocked() {
    let mut w = Cells::new();
    bedrock_row(&mut w, -2, 2, 0);
    place(&mut w, -1, 1, CellKind::Bedrock);
    place(&mut w, 1, 1, CellKind::Bedrock);
    place(&mut w, 0, 1, CellKind::PinkSand);
    for _ in 0i32..10 {
        w.update_all();
        assert_eq!(w.cell_at(point(0, 1)).kind, CellKind::PinkSand);
    }
}

#[test]
fn blue_sand_rises_as_a_last_resort_but_sand_does_not() {
    // a two-cell chamber holding water over granular material: blue
    // sand's final rise attempt can displace the lighter water above it,
    // plain sand never can
    let mut w = Cells::new();
    bedrock_column(&mut w, -1, 0, 3);
    bedrock_column(&mut w, 1, 0, 3);
    place(&mut w, 0, 0, CellKind::Bedrock);
    place(&mut w, 0, 3, CellKind::Bedrock);
    place(&mut w, 0, 1, CellKind::BlueSand);
    place(&mut w, 0, 2, CellKind::Water);
    let mut blue_on_top: u32 = 0;
    for _ in 0i32..40 {
        w.update_all();
        let top = w.cell_at(point(0, 2)).kind;
        let bottom = w.cell_at(point(0, 1)).kind;
        assert!(
            (top == CellKind::BlueSand && bottom == CellKind::Water)
                || (top == CellKind::Water && bottom == CellKind::BlueSand)
        );
        if top == CellKind::BlueSand {
            blue_on_top += 1;
        }
    }
    assert!(blue_on_top > 0);

    let mut v = Cells::new();
    bedrock_column(&mut v, -1, 0, 3);
    bedrock_column(&mut v, 1, 0, 3);
    place(&mut v, 0, 0, CellKind::Bedrock);
    place(&mut v, 0, 3, CellKind::Bedrock);
    place(&mut v, 0, 1, CellKind::Sand);
    place(&mut v, 0, 2, CellKind::Water);
    for _ in 0i32..20 {
        v.update_all();
        assert_eq!(v.cell_at(point(0, 1)).kind, CellKind::Sand);
        assert_eq!(v.cell_at(point(0, 2)).kind, CellKind::Water);
    }
}

#[test]
fn purple_sand_pushes_straight_up_when_tumbles_fail() {
    let mut w = Cells::new();
    bedrock_row(&mut w, -1, 1, 0);
    place(&mut w, -1, 1, CellKind::Bedrock);
    place(&mut w, 1, 1, CellKind::Bedrock);
    place(&mut w, 0, 1, CellKind::PurpleSand);
    w.update_all();
    assert_eq!(w.cell_at(point(0, 2)).kind, CellKind::PurpleSand);
}

#[test]
fn honey_is_more_viscous_than_water() {
    // on a floor with the falling candidates walled off, honey stays put
    // while water takes a level slide at the first opportunity
    let mut h = Cells::new();
    bedrock_row(&mut h, -1, 1, 0);
    place(&mut h, 0, 1, CellKind::Honey);
    for _ in 0i32..10 {
        h.update_all();
        assert_eq!(h.cell_at(point(0, 1)).kind, CellKind::Honey);
    }

    let mut w = Cells::new();
    bedrock_row(&mut w, -1, 1, 0);
    place(&mut w, 0, 1, CellKind::Water);
    w.update_all();
    assert_eq!(w.cell_at(point(0, 1)).kind, CellKind::Air);
    let slid = w.cell_at(point(-1, 1)).kind == CellKind::Water || w.cell_at(point(1, 1)).kind
        == CellKind::Water;
    assert!(slid);
}

#[test]
fn hydrogen_mostly_rises() {
    let mut rose: u32 = 0;
    for _ in 0i32..200 {
        let mut w = Cells::new();
        place(&mut w, 0, 0, CellKind::Hydrogen);
        w.update_all();
        let found = find_kind(&w, -2, 2, -2, 2, CellKind::Hydrogen);
        assert_eq!(found.len(), 1);
        if found[0].1 > 0 {
            rose += 1;
        }
    }
    // the rising candidate set wins 60% of the draws and each rise into
    // Air clears its probability check more often than not over 200 runs
    assert!(rose > 0);
}

#[test]
fn buoyancy_hydrogen_ends_above_sand() {
    let mut w = Cells::new();
    // a closed bedrock cup: hydrogen trapped under a sand grain
    bedrock_row(&mut w, -2, 2, 0);
    bedrock_row(&mut w, -2, 2, 8);
    bedrock_column(&mut w, -2, 0, 8);
    bedrock_column(&mut w, 2, 0, 8);
    place(&mut w, 0, 1, CellKind::Hydrogen);
    place(&mut w, 0, 2, CellKind::Sand);
    for _ in 0i32..80 {
        w.update_all();
    }
    let hydrogen = find_kind(&w, -1, 1, 1, 7, CellKind::Hydrogen);
    let sand = find_kind(&w, -1, 1, 1, 7, CellKind::Sand);
    assert_eq!(hydrogen.len(), 1);
    assert_eq!(sand.len(), 1);
    // the density inversion has resolved: sand sank, hydrogen floated
    assert!(hydrogen[0].1 > sand[0].1);
    assert!(sand[0].1 < 2);
}

#[test]
fn water_plinko_spreads_and_stays_bounded() {
    let mut w = Cells::new();
    // a diagonal lattice of bedrock pegs
    for row in 1i32..=10 {
        let offset = row % 2;
        for x in -15i32..15 {
            place(&mut w, 2 * x + offset, -3 * row, CellKind::Bedrock);
        }
    }
    for _ in 0i32..1000 {
        w.set_cell(point(0, 0), Cell::new(CellKind::Water));
        w.update_all();
        // the active set stays bounded tick over tick
        assert!(w.active_len() < 100_000);
    }
    // below the peg field the water has spread over several columns
    let below = find_kind(&w, -40, 40, -400, -31, CellKind::Water);
    let mut xs: Vec<i32> = below.iter().map(|&(x, _)| x).collect();
    xs.sort();
    xs.dedup();
    assert!(xs.len() >= 3);
}
