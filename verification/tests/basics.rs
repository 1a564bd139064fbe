use the_pink_sand_simulator::cells::{Cell, CellKind, Cells};
use the_pink_sand_simulator::point::{point, Point};

#[test]
fn cell_new_starts_unmoved() {
    let c = Cell::new(CellKind::Water);
    assert_eq!(c.kind, CellKind::Water);
    assert!(!c.swapped);
}

#[test]
fn air_queries() {
    assert!(Cell::new(CellKind::Air).is_air());
    assert!(!Cell::new(CellKind::Air).not_air());
    assert!(!Cell::new(CellKind::Sand).is_air());
    assert!(Cell::new(CellKind::Sand).not_air());
}

#[test]
fn cell_is_membership() {
    let c = Cell::new(CellKind::Honey);
    assert!(c.is(&[CellKind::Water, CellKind::Honey]));
    assert!(!c.is(&[CellKind::Water, CellKind::Sand]));
    assert!(!c.is(&[]));
}

#[test]
fn densities() {
    assert_eq!(Cell::new(CellKind::Air).density(), 0);
    assert_eq!(Cell::new(CellKind::Bedrock).density(), 1000);
    assert_eq!(Cell::new(CellKind::Sand).density(), 30);
    assert_eq!(Cell::new(CellKind::PinkSand).density(), 30);
    assert_eq!(Cell::new(CellKind::PurpleSand).density(), 30);
    assert_eq!(Cell::new(CellKind::BlueSand).density(), 30);
    assert_eq!(Cell::new(CellKind::Water).density(), 25);
    assert_eq!(Cell::new(CellKind::Honey).density(), 28);
    assert_eq!(Cell::new(CellKind::Hydrogen).density(), 5);
}

#[test]
fn colours() {
    assert_eq!(Cell::new(CellKind::Air).colour(), [10, 10, 10, 255]);
    assert_eq!(Cell::new(CellKind::Water).colour(), [30, 76, 200, 255]);
    assert_eq!(Cell::new(CellKind::Honey).colour(), [140, 90, 50, 255]);
    assert_eq!(Cell::new(CellKind::Sand).colour(), [200, 100, 50, 255]);
    assert_eq!(Cell::new(CellKind::PinkSand).colour(), [160, 80, 110, 255]);
    assert_eq!(Cell::new(CellKind::PurpleSand).colour(), [120, 80, 180, 255]);
    assert_eq!(Cell::new(CellKind::BlueSand).colour(), [90, 70, 210, 255]);
    assert_eq!(Cell::new(CellKind::Bedrock).colour(), [105, 105, 105, 255]);
    assert_eq!(Cell::new(CellKind::Hydrogen).colour(), [210, 230, 240, 255]);
}

#[test]
fn point_arithmetic() {
    let p = point(3, -4);
    assert_eq!(p.tup(), (3, -4));
    assert_eq!(p.add(point(-1, 6)).tup(), (2, 2));
    assert_eq!(p.scale(-2).tup(), (-6, 8));
    assert_eq!(point(5, 7).utup(), (5, 7));
    assert_eq!(point(2, 3).index(10), 23);
    assert_eq!(point(0, 0).index(10), 0);
}

#[test]
fn point_equality_is_structural() {
    assert_eq!(point(1, 2), Point { x: 1, y: 2 });
    assert_ne!(point(1, 2), point(2, 1));
}

#[test]
fn new_world_is_all_air() {
    let w = Cells::new();
    assert_eq!(w.cell_at(point(0, 0)).kind, CellKind::Air);
    assert_eq!(w.cell_at(point(-1000000, 31)).kind, CellKind::Air);
    assert_eq!(w.cell_at(point(2147483647, -2147483648)).kind, CellKind::Air);
    assert_eq!(w.active_len(), 0);
}

#[test]
fn set_cell_places_and_overwrites() {
    let mut w = Cells::new();
    w.set_cell(point(4, -7), Cell::new(CellKind::Honey));
    assert_eq!(w.cell_at(point(4, -7)).kind, CellKind::Honey);
    assert_eq!(w.cell_at(point(4, -6)).kind, CellKind::Air);
    w.set_cell(point(4, -7), Cell::new(CellKind::Bedrock));
    assert_eq!(w.cell_at(point(4, -7)).kind, CellKind::Bedrock);
    // placing Air erases the coordinate
    w.set_cell(point(4, -7), Cell::new(CellKind::Air));
    assert_eq!(w.cell_at(point(4, -7)).kind, CellKind::Air);
}

#[test]
fn set_cell_wakes_the_neighbourhood() {
    let mut w = Cells::new();
    w.set_cell(point(10, 10), Cell::new(CellKind::Sand));
    assert_eq!(w.active_len(), 9);
}

#[test]
fn a_tick_on_an_empty_world_does_nothing() {
    let mut w = Cells::new();
    w.update_all();
    assert_eq!(w.active_len(), 0);
    assert_eq!(w.cell_at(point(0, 0)).kind, CellKind::Air);
}
