use the_pink_sand_simulator::cells::{swap_allowed, Cell, CellData, CellKind};
use the_pink_sand_simulator::point::point;

#[test]
fn swap_allowed_boundary() {
    // an advantage of 9 is beaten by every roll the primitive can draw
    for roll in 1i32..10 {
        assert!(swap_allowed(9, roll));
    }
    // an advantage of 8 is refused by the top roll
    assert!(!swap_allowed(8, 9));
    // no roll beats a zero or negative advantage
    for roll in 1i32..10 {
        assert!(!swap_allowed(0, roll));
        assert!(!swap_allowed(-3, roll));
    }
}

#[test]
fn try_swap_overwhelming_density_always_succeeds() {
    // Sand over Air: advantage 30, success is guaranteed
    for _ in 0i32..50 {
        let mut d = CellData::new();
        d.set_cell(point(0, 1), Cell::new(CellKind::Sand));
        assert!(d.try_swap(point(0, 1), point(0, 0)));
        assert_eq!(d.cell_at(point(0, 0)).kind, CellKind::Sand);
        assert_eq!(d.cell_at(point(0, 1)).kind, CellKind::Air);
    }
}

#[test]
fn try_swap_never_into_denser() {
    // Water into Honey: advantage is negative, the swap never happens
    let mut d = CellData::new();
    d.set_cell(point(0, 1), Cell::new(CellKind::Water));
    d.set_cell(point(0, 0), Cell::new(CellKind::Honey));
    for _ in 0i32..50 {
        assert!(!d.try_swap(point(0, 1), point(0, 0)));
        assert_eq!(d.cell_at(point(0, 0)).kind, CellKind::Honey);
        assert_eq!(d.cell_at(point(0, 1)).kind, CellKind::Water);
    }
}

#[test]
fn try_swap_never_into_equal_density() {
    let mut d = CellData::new();
    d.set_cell(point(0, 1), Cell::new(CellKind::Sand));
    d.set_cell(point(0, 0), Cell::new(CellKind::PinkSand));
    for _ in 0i32..50 {
        assert!(!d.try_swap(point(0, 1), point(0, 0)));
    }
}

#[test]
fn try_swap_refuses_flagged_destination() {
    // a cell that already moved this tick cannot be displaced again,
    // whatever the density advantage
    let mut d = CellData::new();
    d.set_cell(point(0, 1), Cell::new(CellKind::Sand));
    d.set_cell(point(0, 0), Cell { kind: CellKind::Water, swapped: true });
    for _ in 0i32..50 {
        assert!(!d.try_swap(point(0, 1), point(0, 0)));
        assert_eq!(d.cell_at(point(0, 0)).kind, CellKind::Water);
        assert_eq!(d.cell_at(point(0, 1)).kind, CellKind::Sand);
    }
}

#[test]
fn try_swap_bedrock_never_yields() {
    let mut d = CellData::new();
    d.set_cell(point(0, 1), Cell::new(CellKind::Sand));
    d.set_cell(point(0, 0), Cell::new(CellKind::Bedrock));
    for _ in 0i32..50 {
        assert!(!d.try_swap(point(0, 1), point(0, 0)));
        assert_eq!(d.cell_at(point(0, 0)).kind, CellKind::Bedrock);
    }
}

#[test]
fn try_swap_moderate_advantage_is_probabilistic() {
    // Water over Air: advantage 25... use Hydrogen over Air instead,
    // advantage 5, so both outcomes appear over enough draws
    let mut successes: u32 = 0;
    let mut failures: u32 = 0;
    for _ in 0i32..200 {
        let mut d = CellData::new();
        d.set_cell(point(0, 1), Cell::new(CellKind::Hydrogen));
        if d.try_swap(point(0, 1), point(0, 0)) {
            successes += 1;
        } else {
            failures += 1;
        }
    }
    assert!(successes > 0);
    assert!(failures > 0);
}

#[test]
fn swap_cells_flags_the_displaced_cell() {
    let mut d = CellData::new();
    d.set_cell(point(0, 1), Cell::new(CellKind::Sand));
    d.set_cell(point(0, 0), Cell::new(CellKind::Water));
    d.swap_cells(point(0, 1), point(0, 0));
    let moved = d.cell_at(point(0, 0));
    let displaced = d.cell_at(point(0, 1));
    assert_eq!(moved.kind, CellKind::Sand);
    assert!(!moved.swapped);
    assert_eq!(displaced.kind, CellKind::Water);
    assert!(displaced.swapped);
}

#[test]
fn swap_cells_into_air_vacates_the_source() {
    let mut d = CellData::new();
    d.set_cell(point(0, 1), Cell::new(CellKind::Honey));
    d.swap_cells(point(0, 1), point(0, 0));
    assert_eq!(d.cell_at(point(0, 0)).kind, CellKind::Honey);
    assert_eq!(d.cell_at(point(0, 1)).kind, CellKind::Air);
    assert!(!d.cell_at(point(0, 1)).swapped);
}

#[test]
fn multi_try_swap_takes_the_first_open_candidate() {
    // straight down is walled off, so the first falling diagonal wins
    let mut d = CellData::new();
    d.set_cell(point(0, 1), Cell::new(CellKind::Sand));
    d.set_cell(point(0, 0), Cell::new(CellKind::Bedrock));
    let offsets = [point(0, -1), point(-1, -1), point(1, -1)];
    assert!(d.multi_try_swap(point(0, 1), &offsets));
    assert_eq!(d.cell_at(point(-1, 0)).kind, CellKind::Sand);
    assert_eq!(d.cell_at(point(0, 1)).kind, CellKind::Air);
    assert_eq!(d.cell_at(point(1, 0)).kind, CellKind::Air);
}

#[test]
fn multi_try_swap_with_no_open_candidate_changes_nothing() {
    let mut d = CellData::new();
    d.set_cell(point(0, 1), Cell::new(CellKind::Sand));
    d.set_cell(point(0, 0), Cell::new(CellKind::Bedrock));
    d.set_cell(point(-1, 0), Cell::new(CellKind::Bedrock));
    d.set_cell(point(1, 0), Cell::new(CellKind::Bedrock));
    let offsets = [point(0, -1), point(-1, -1), point(1, -1)];
    for _ in 0i32..20 {
        assert!(!d.multi_try_swap(point(0, 1), &offsets));
        assert_eq!(d.cell_at(point(0, 1)).kind, CellKind::Sand);
    }
}
