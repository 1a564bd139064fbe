//! The simulation engine: material kinds, the sparse cell store with its
//! density-weighted probabilistic swap primitive, and the per-tick driver
//! with one update rule per material.

use vstd::prelude::*;
use vstd::set_lib::lemma_len_subset;

use crate::point::{
    fall_slide, fall_slide_offsets, fall_slide_rank, fall_tumble, fall_tumble_offsets,
    fall_tumble_rank, fall_tumble_rise, fall_tumble_rise_offsets, fall_tumble_rise_rank,
    level_slide, ring_offsets, rise_slide, tumble, tumble_offsets, tumble_rise,
    tumble_rise_offsets, tumble_rise_rank, Point,
};
use crate::rng::{random_in, random_pref};

verus! {

broadcast use vstd::std_specs::hash::group_hash_axioms, vstd::set::group_set_axioms;

/// The closed set of materials a cell can hold. `Air` is the implicit
/// content of every coordinate the store has no entry for.
#[derive(Debug, Clone, Copy, PartialEq, Eq, Structural)]
pub enum CellKind {
    Air,
    Bedrock,
    Sand,
    PinkSand,
    PurpleSand,
    BlueSand,
    Water,
    Honey,
    Hydrogen,
}

/// A grid entry: its material and a transient per-tick flag that is true
/// once the cell has been displaced by a swap this tick.
#[derive(Debug, Clone, Copy, PartialEq, Eq, Structural)]
pub struct Cell {
    pub kind: CellKind,
    pub swapped: bool,
}

/// The cell value every absent coordinate stands for.
pub open spec fn air() -> Cell {
    Cell { kind: CellKind::Air, swapped: false }
}

/// The density that drives the probabilistic swap. `Bedrock`'s density is
/// effectively infinite: no other material can ever beat it.
pub open spec fn spec_density(k: CellKind) -> int {
    match k {
        CellKind::Air => 0,
        CellKind::Bedrock => 1000,
        CellKind::Sand => 30,
        CellKind::PinkSand => 30,
        CellKind::PurpleSand => 30,
        CellKind::BlueSand => 30,
        CellKind::Water => 25,
        CellKind::Honey => 28,
        CellKind::Hydrogen => 5,
    }
}

/// The display colour of a material, as RGBA bytes.
pub open spec fn spec_colour(k: CellKind) -> [u8; 4] {
    match k {
        CellKind::Air => [10, 10, 10, 255],
        CellKind::Bedrock => [105, 105, 105, 255],
        CellKind::Sand => [200, 100, 50, 255],
        CellKind::PinkSand => [160, 80, 110, 255],
        CellKind::PurpleSand => [120, 80, 180, 255],
        CellKind::BlueSand => [90, 70, 210, 255],
        CellKind::Water => [30, 76, 200, 255],
        CellKind::Honey => [140, 90, 50, 255],
        CellKind::Hydrogen => [210, 230, 240, 255],
    }
}

impl Cell {
    /// A fresh cell of the given material that has not moved this tick.
    pub fn new(kind: CellKind) -> (c: Cell)
        ensures
            c == (Cell { kind, swapped: false }),
    {
        Cell { kind, swapped: false }
    }

    /// True for every material except `Air`.
    pub fn not_air(&self) -> (r: bool)
        ensures
            r == (self.kind != CellKind::Air),
    {
        match self.kind {
            CellKind::Air => false,
            _ => true,
        }
    }

    /// True exactly for `Air`.
    pub fn is_air(&self) -> (r: bool)
        ensures
            r == (self.kind == CellKind::Air),
    {
        match self.kind {
            CellKind::Air => true,
            _ => false,
        }
    }

    /// Whether the cell's material is one of the listed kinds.
    pub fn is(&self, cells: &[CellKind]) -> (r: bool)
        ensures
            r == exists|i: int| 0 <= i < cells@.len() && cells@[i] == self.kind,
    {
        let mut i: usize = 0;
        while i < cells.len()
            invariant
                0 <= i <= cells@.len(),
                forall|j: int| 0 <= j < i ==> cells@[j] != self.kind,
            decreases cells@.len() - i,
        {
            if cells[i] == self.kind {
                return true;
            }
            i = i + 1;
        }
        false
    }

    /// The material's display colour.
    pub fn colour(&self) -> (r: [u8; 4])
        ensures
            r == spec_colour(self.kind),
    {
        match self.kind {
            CellKind::Air => [10, 10, 10, 255],
            CellKind::Bedrock => [105, 105, 105, 255],
            CellKind::Sand => [200, 100, 50, 255],
            CellKind::PinkSand => [160, 80, 110, 255],
            CellKind::PurpleSand => [120, 80, 180, 255],
            CellKind::BlueSand => [90, 70, 210, 255],
            CellKind::Water => [30, 76, 200, 255],
            CellKind::Honey => [140, 90, 50, 255],
            CellKind::Hydrogen => [210, 230, 240, 255],
        }
    }

    /// The material's density.
    pub fn density(&self) -> (r: i32)
        ensures
            r == spec_density(self.kind),
    {
        match self.kind {
            CellKind::Air => 0,
            CellKind::Bedrock => 1000,
            CellKind::Sand => 30,
            CellKind::PinkSand => 30,
            CellKind::PurpleSand => 30,
            CellKind::BlueSand => 30,
            CellKind::Water => 25,
            CellKind::Honey => 28,
            CellKind::Hydrogen => 5,
        }
    }
}

/// Whether `v` lies in the coordinate range the store can address.
pub open spec fn in32(v: int) -> bool {
    i32::MIN <= v <= i32::MAX
}

/// The neighbour of `p` at offset `(dx, dy)`; meaningful when the result
/// stays in the addressable range.
pub open spec fn near(p: Point, dx: int, dy: int) -> Point {
    Point { x: (p.x + dx) as i32, y: (p.y + dy) as i32 }
}

/// The non-negative image of an `i32`-ranged coordinate, as produced by
/// reinterpreting it as 32 unsigned bits.
pub open spec fn enc32(v: int) -> int {
    if v >= 0 {
        v
    } else {
        v + 0x1_0000_0000
    }
}

/// The store key a coordinate pair maps to: the two 32-bit images packed
/// into one 64-bit word.
pub open spec fn key_at(x: int, y: int) -> u64 {
    (enc32(x) * 0x1_0000_0000 + enc32(y)) as u64
}

proof fn lemma_key_bounds(x: int, y: int)
    requires
        in32(x),
        in32(y),
    ensures
        0 <= enc32(x) < 0x1_0000_0000,
        0 <= enc32(y) < 0x1_0000_0000,
        0 <= enc32(x) * 0x1_0000_0000 + enc32(y) <= u64::MAX,
        key_at(x, y) == enc32(x) * 0x1_0000_0000 + enc32(y),
{
    assert(0 <= enc32(x) < 0x1_0000_0000);
    assert(0 <= enc32(y) < 0x1_0000_0000);
    assert(enc32(x) * 0x1_0000_0000 <= 0xffff_ffff * 0x1_0000_0000) by (nonlinear_arith)
        requires
            0 <= enc32(x) < 0x1_0000_0000,
    ;
    assert(0 <= enc32(x) * 0x1_0000_0000) by (nonlinear_arith)
        requires
            0 <= enc32(x),
    ;
}

/// Distinct coordinates always receive distinct store keys.
proof fn lemma_key_injective(x1: int, y1: int, x2: int, y2: int)
    requires
        in32(x1),
        in32(y1),
        in32(x2),
        in32(y2),
        key_at(x1, y1) == key_at(x2, y2),
    ensures
        x1 == x2,
        y1 == y2,
{
    lemma_key_bounds(x1, y1);
    lemma_key_bounds(x2, y2);
    assert(enc32(x1) == enc32(x2) && enc32(y1) == enc32(y2)) by (nonlinear_arith)
        requires
            0 <= enc32(y1) < 0x1_0000_0000,
            0 <= enc32(y2) < 0x1_0000_0000,
            enc32(x1) * 0x1_0000_0000 + enc32(y1) == enc32(x2) * 0x1_0000_0000 + enc32(y2),
    ;
}

/// The sparse cell store: an associative map from packed coordinates to
/// cells (absence means `Air`), plus the list of coordinates that must be
/// examined on the next tick.
#[derive(Debug)]
pub struct CellData {
    cells: std::collections::HashMap<u64, Cell>,
    dirty: Vec<Point>,
}

/// The keys of the stored cells holding material `k`.
pub closed spec fn kind_keys(m: Map<u64, Cell>, k: CellKind) -> Set<u64> {
    Set::new(|key: u64| m.contains_key(key) && m[key].kind == k)
}

/// How many stored cells hold material `k`.
pub closed spec fn map_count(m: Map<u64, Cell>, k: CellKind) -> nat {
    kind_keys(m, k).len()
}

proof fn lemma_kind_keys_finite(m: Map<u64, Cell>, k: CellKind)
    requires
        m.dom().finite(),
    ensures
        kind_keys(m, k).finite(),
        kind_keys(m, k).len() <= m.dom().len(),
{
    lemma_len_subset(kind_keys(m, k), m.dom());
}

proof fn lemma_count_insert(m: Map<u64, Cell>, key: u64, c: Cell, k: CellKind)
    requires
        m.dom().finite(),
    ensures
        map_count(m.insert(key, c), k) as int == map_count(m, k) as int - (if m.contains_key(key)
            && m[key].kind == k {
            1int
        } else {
            0
        }) + (if c.kind == k {
            1int
        } else {
            0
        }),
{
    lemma_kind_keys_finite(m, k);
    if c.kind == k {
        assert(kind_keys(m.insert(key, c), k) =~= kind_keys(m, k).insert(key));
    } else {
        assert(kind_keys(m.insert(key, c), k) =~= kind_keys(m, k).remove(key));
    }
}

proof fn lemma_count_remove(m: Map<u64, Cell>, key: u64, k: CellKind)
    requires
        m.dom().finite(),
    ensures
        map_count(m.remove(key), k) as int == map_count(m, k) as int - (if m.contains_key(key)
            && m[key].kind == k {
            1int
        } else {
            0
        }),
{
    lemma_kind_keys_finite(m, k);
    assert(kind_keys(m.remove(key), k) =~= kind_keys(m, k).remove(key));
}

/// The exec computation of a coordinate's store key.
fn key_of(p: Point) -> (k: u64)
    ensures
        k == key_at(p.x as int, p.y as int),
{
    let xu: u64 = if p.x >= 0 {
        p.x as u64
    } else {
        (p.x as i64 + 0x1_0000_0000i64) as u64
    };
    let yu: u64 = if p.y >= 0 {
        p.y as u64
    } else {
        (p.y as i64 + 0x1_0000_0000i64) as u64
    };
    proof {
        lemma_key_bounds(p.x as int, p.y as int);
    }
    xu * 0x1_0000_0000u64 + yu
}

impl CellData {
    /// The contents of coordinate `(x, y)`: the stored cell, or `Air`
    /// where nothing is stored (or the coordinate is unaddressable).
    pub closed spec fn at(self, x: int, y: int) -> Cell {
        if in32(x) && in32(y) && self.cells@.contains_key(key_at(x, y)) {
            self.cells@[key_at(x, y)]
        } else {
            air()
        }
    }

    /// The store never holds an explicit `Air` entry: vacated coordinates
    /// revert to implicit `Air` by removal.
    pub closed spec fn wf(self) -> bool {
        forall|key: u64|
            self.cells@.contains_key(key) ==> (#[trigger] self.cells@[key]).kind != CellKind::Air
    }

    /// The coordinates recorded for examination on the next tick.
    pub closed spec fn pending(self) -> Seq<Point> {
        self.dirty@
    }

    /// How many stored cells hold material `k`.
    pub closed spec fn count_of(self, k: CellKind) -> nat {
        map_count(self.cells@, k)
    }

    /// How many cells the store holds in total.
    pub closed spec fn spec_len(self) -> nat {
        self.cells@.len()
    }

    /// An empty store: an infinite plane of `Air` with nothing scheduled.
    pub fn new() -> (d: CellData)
        ensures
            d.wf(),
            forall|x: int, y: int| d.at(x, y) == air(),
            d.pending() == Seq::<Point>::empty(),
            forall|k: CellKind| d.count_of(k) == 0,
    {
        let d = CellData { cells: std::collections::HashMap::new(), dirty: Vec::new() };
        proof {
            assert forall|k: CellKind| d.count_of(k) == 0 by {
                assert(kind_keys(d.cells@, k) =~= Set::<u64>::empty());
            }
        }
        d
    }

    /// Read-only view of a coordinate; `Air` where nothing is stored.
    pub fn cell_at(&self, p: Point) -> (c: Cell)
        ensures
            c == self.at(p.x as int, p.y as int),
    {
        let key = key_of(p);
        match self.cells.get(&key) {
            Some(c) => *c,
            None => Cell { kind: CellKind::Air, swapped: false },
        }
    }

    /// Write `c` at `p`, or erase the entry when `c` is `Air`.
    fn put(&mut self, p: Point, c: Cell)
        ensures
            old(self).wf() ==> final(self).wf(),
            final(self).at(p.x as int, p.y as int) == (if c.kind == CellKind::Air {
                air()
            } else {
                c
            }),
            forall|x: int, y: int|
                !(x == p.x as int && y == p.y as int) ==> final(self).at(x, y) == old(self).at(x, y),
            final(self).pending() == old(self).pending(),
            forall|k: CellKind|
                k != CellKind::Air ==> #[trigger] final(self).count_of(k) as int == old(self).count_of(
                    k,
                ) as int - (if old(self).at(p.x as int, p.y as int).kind == k {
                    1int
                } else {
                    0
                }) + (if c.kind == k {
                    1int
                } else {
                    0
                }),
    {
        let key = key_of(p);
        let ghost pre = self.cells@;
        match c.kind {
            CellKind::Air => {
                self.cells.remove(&key);
            },
            _ => {
                self.cells.insert(key, c);
            },
        }
        proof {
            let px = p.x as int;
            let py = p.y as int;
            assert forall|x: int, y: int| !(x == px && y == py) implies self.at(x, y) == old(self).at(x, y) by {
                if in32(x) && in32(y) {
                    if key_at(x, y) == key_at(px, py) {
                        lemma_key_injective(x, y, px, py);
                    }
                }
            }
            assert forall|k: CellKind| k != CellKind::Air implies #[trigger] self.count_of(
                k,
            ) as int == old(self).count_of(k) as int - (if old(self).at(px, py).kind == k {
                1int
            } else {
                0
            }) + (if c.kind == k {
                1int
            } else {
                0
            }) by {
                if c.kind == CellKind::Air {
                    lemma_count_remove(pre, key_at(px, py), k);
                } else {
                    lemma_count_insert(pre, key_at(px, py), c, k);
                }
            }
        }
    }

    /// Record `p` for examination on the next tick.
    fn awaken(&mut self, p: Point)
        ensures
            final(self).cells@ == old(self).cells@,
            final(self).wf() == old(self).wf(),
            forall|x: int, y: int| final(self).at(x, y) == old(self).at(x, y),
            forall|k: CellKind| final(self).count_of(k) == old(self).count_of(k),
            final(self).pending() == old(self).pending().push(p),
    {
        self.dirty.push(p);
    }

    /// Record `p` and its whole 3-by-3 neighbourhood for examination on
    /// the next tick, skipping neighbours outside the addressable range.
    fn mark_dirty(&mut self, p: Point)
        ensures
            final(self).cells@ == old(self).cells@,
            final(self).wf() == old(self).wf(),
            forall|x: int, y: int| final(self).at(x, y) == old(self).at(x, y),
            forall|k: CellKind| final(self).count_of(k) == old(self).count_of(k),
            forall|i: int|
                0 <= i < old(self).pending().len() ==> final(self).pending()[i] == old(self).pending()[i],
            final(self).pending().len() >= old(self).pending().len(),
            forall|dx: int, dy: int|
                -1 <= dx <= 1 && -1 <= dy <= 1 && in32(p.x + dx) && in32(p.y + dy)
                    ==> final(self).pending().contains(#[trigger] near(p, dx, dy)),
            forall|i: int|
                old(self).pending().len() <= i < final(self).pending().len() ==> adjacent(
                    p,
                    #[trigger] final(self).pending()[i],
                ),
    {
        let mut dx: i32 = -1;
        while dx <= 1
            invariant
                -1 <= dx <= 2,
                self.cells@ == old(self).cells@,
                self.wf() == old(self).wf(),
                forall|x: int, y: int| self.at(x, y) == old(self).at(x, y),
                forall|k: CellKind| self.count_of(k) == old(self).count_of(k),
                forall|i: int|
                    0 <= i < old(self).pending().len() ==> self.pending()[i] == old(self).pending()[i],
                self.pending().len() >= old(self).pending().len(),
                forall|ax: int, dy: int|
                    -1 <= ax < dx && -1 <= dy <= 1 && in32(p.x + ax) && in32(p.y + dy)
                        ==> self.pending().contains(#[trigger] near(p, ax, dy)),
                forall|i: int|
                    old(self).pending().len() <= i < self.pending().len() ==> adjacent(
                        p,
                        #[trigger] self.pending()[i],
                    ),
            decreases 2 - dx,
        {
            let mut dy: i32 = -1;
            while dy <= 1
                invariant
                    -1 <= dx <= 1,
                    -1 <= dy <= 2,
                    self.cells@ == old(self).cells@,
                    self.wf() == old(self).wf(),
                    forall|x: int, y: int| self.at(x, y) == old(self).at(x, y),
                    forall|k: CellKind| self.count_of(k) == old(self).count_of(k),
                    forall|i: int|
                        0 <= i < old(self).pending().len() ==> self.pending()[i] == old(self).pending()[i],
                    self.pending().len() >= old(self).pending().len(),
                    forall|ax: int, ay: int|
                        -1 <= ax < dx && -1 <= ay <= 1 && in32(p.x + ax) && in32(p.y + ay)
                            ==> self.pending().contains(#[trigger] near(p, ax, ay)),
                    forall|ay: int|
                        -1 <= ay < dy && in32(p.x + dx) && in32(p.y + ay)
                            ==> self.pending().contains(#[trigger] near(p, dx as int, ay)),
                    forall|i: int|
                        old(self).pending().len() <= i < self.pending().len() ==> adjacent(
                            p,
                            #[trigger] self.pending()[i],
                        ),
                decreases 2 - dy,
            {
                let ghost before = self.pending();
                if (dx >= 0 || p.x > i32::MIN) && (dx <= 0 || p.x < i32::MAX) && (dy >= 0 || p.y
                    > i32::MIN) && (dy <= 0 || p.y < i32::MAX) {
                    let q = Point { x: p.x + dx, y: p.y + dy };
                    self.dirty.push(q);
                    proof {
                        assert(self.pending()[before.len() as int] == q);
                        assert(q == near(p, dx as int, dy as int));
                    }
                }
                proof {
                    assert forall|e: Point| before.contains(e) implies self.pending().contains(
                        e,
                    ) by {
                        let i = choose|i: int| 0 <= i < before.len() && before[i] == e;
                        assert(self.pending()[i] == e);
                    }
                }
                dy = dy + 1;
            }
            dx = dx + 1;
        }
    }

    /// Place `cell` at `p`, replacing any prior occupant, and wake the
    /// 3-by-3 neighbourhood of `p` for the next tick. Placing `Air`
    /// erases the coordinate.
    pub fn set_cell(&mut self, p: Point, cell: Cell)
        ensures
            old(self).wf() ==> final(self).wf(),
            final(self).at(p.x as int, p.y as int) == (if cell.kind == CellKind::Air {
                air()
            } else {
                cell
            }),
            forall|x: int, y: int|
                !(x == p.x as int && y == p.y as int) ==> final(self).at(x, y) == old(self).at(x, y),
            forall|i: int|
                0 <= i < old(self).pending().len() ==> final(self).pending()[i] == old(self).pending()[i],
            forall|dx: int, dy: int|
                -1 <= dx <= 1 && -1 <= dy <= 1 && in32(p.x + dx) && in32(p.y + dy)
                    ==> final(self).pending().contains(#[trigger] near(p, dx, dy)),
            forall|k: CellKind|
                k != CellKind::Air ==> #[trigger] final(self).count_of(k) as int == old(self).count_of(k) as int - (if old(self).at(p.x as int, p.y as int).kind == k {
                    1int
                } else {
                    0
                }) + (if cell.kind == k {
                    1int
                } else {
                    0
                }),
    {
        self.put(p, cell);
        self.mark_dirty(p);
    }

    /// How many coordinates are scheduled for the next tick.
    pub fn pending_len(&self) -> (n: usize)
        ensures
            n == self.pending().len(),
    {
        self.dirty.len()
    }

    /// How many cells the store holds.
    pub fn len(&self) -> (n: usize)
        ensures
            n == self.spec_len(),
    {
        self.cells.len()
    }

    /// Hand out the list of coordinates scheduled for the next tick,
    /// leaving nothing scheduled.
    fn take_pending(&mut self) -> (v: Vec<Point>)
        ensures
            v@ == old(self).pending(),
            final(self).pending() == Seq::<Point>::empty(),
            final(self).cells@ == old(self).cells@,
            final(self).wf() == old(self).wf(),
            forall|x: int, y: int| final(self).at(x, y) == old(self).at(x, y),
            forall|k: CellKind| final(self).count_of(k) == old(self).count_of(k),
    {
        let mut v: Vec<Point> = Vec::new();
        core::mem::swap(&mut self.dirty, &mut v);
        v
    }

    /// Reset the per-tick movement budget of the cell at `p` without
    /// waking anything: its material keeps its place, its `swapped` flag
    /// becomes false.
    fn clear_swapped(&mut self, p: Point)
        requires
            old(self).wf(),
        ensures
            final(self).wf(),
            final(self).at(p.x as int, p.y as int) == (Cell {
                kind: old(self).at(p.x as int, p.y as int).kind,
                swapped: false,
            }),
            forall|x: int, y: int|
                !(x == p.x as int && y == p.y as int) ==> final(self).at(x, y) == old(self).at(
                    x,
                    y,
                ),
            final(self).pending() == old(self).pending(),
            forall|k: CellKind| final(self).count_of(k) == old(self).count_of(k),
    {
        let c = self.cell_at(p);
        if c.not_air() {
            self.put(p, Cell { kind: c.kind, swapped: false });
            proof {
                assert forall|k: CellKind| final(self).count_of(k) == old(self).count_of(k) by {
                    if k != CellKind::Air {
                        assert(self.count_of(k) as int == old(self).count_of(k) as int);
                    } else {
                        assert(kind_keys(self.cells@, k) =~= kind_keys(old(self).cells@, k));
                    }
                }
            }
        }
    }

    /// Exchange the occupants of two distinct coordinates: the cell at
    /// `from` moves to `to` keeping its flag, the displaced occupant of
    /// `to` (if any) lands at `from` with its `swapped` flag set, and both
    /// neighbourhoods wake for the next tick.
    pub fn swap_cells(&mut self, from: Point, to: Point)
        requires
            old(self).wf(),
            from != to,
        ensures
            final(self).wf(),
            final(self).at(to.x as int, to.y as int) == old(self).at(from.x as int, from.y as int),
            final(self).at(from.x as int, from.y as int) == (if old(self).at(
                to.x as int,
                to.y as int,
            ).kind == CellKind::Air {
                air()
            } else {
                (Cell { kind: old(self).at(to.x as int, to.y as int).kind, swapped: true })
            }),
            forall|x: int, y: int|
                !(x == from.x as int && y == from.y as int) && !(x == to.x as int && y
                    == to.y as int) ==> final(self).at(x, y) == old(self).at(x, y),
            forall|k: CellKind|
                k != CellKind::Air ==> #[trigger] final(self).count_of(k) == old(self).count_of(k),
            forall|i: int|
                0 <= i < old(self).pending().len() ==> final(self).pending()[i] == old(self).pending()[i],
            final(self).pending().len() >= old(self).pending().len(),
            forall|dx: int, dy: int|
                -1 <= dx <= 1 && -1 <= dy <= 1 && in32(from.x + dx) && in32(from.y + dy)
                    ==> final(self).pending().contains(#[trigger] near(from, dx, dy)),
            forall|dx: int, dy: int|
                -1 <= dx <= 1 && -1 <= dy <= 1 && in32(to.x + dx) && in32(to.y + dy)
                    ==> final(self).pending().contains(#[trigger] near(to, dx, dy)),
            forall|i: int|
                old(self).pending().len() <= i < final(self).pending().len() ==> adjacent(
                    from,
                    #[trigger] final(self).pending()[i],
                ) || adjacent(to, final(self).pending()[i]),
    {
        let cf = self.cell_at(from);
        let ct = self.cell_at(to);
        self.put(from, Cell { kind: ct.kind, swapped: true });
        self.put(to, cf);
        let ghost mid = self.pending();
        self.mark_dirty(from);
        let ghost mid2 = self.pending();
        self.mark_dirty(to);
        proof {
            lemma_pending_extends(mid2, self.pending());
        }
    }
}

proof fn lemma_pending_extends(pre: Seq<Point>, post: Seq<Point>)
    requires
        pre.len() <= post.len(),
        forall|i: int| 0 <= i < pre.len() ==> post[i] == pre[i],
    ensures
        forall|e: Point| pre.contains(e) ==> post.contains(e),
{
    assert forall|e: Point| pre.contains(e) implies post.contains(e) by {
        let i = choose|i: int| 0 <= i < pre.len() && pre[i] == e;
        assert(post[i] == e);
    }
}

/// A `Sand` cell walled in by `Bedrock` on all eight sides.
pub open spec fn sealed(d: CellData, x: int, y: int) -> bool {
    &&& d.at(x, y).kind == CellKind::Sand
    &&& d.at(x - 1, y - 1).kind == CellKind::Bedrock
    &&& d.at(x - 1, y).kind == CellKind::Bedrock
    &&& d.at(x - 1, y + 1).kind == CellKind::Bedrock
    &&& d.at(x, y - 1).kind == CellKind::Bedrock
    &&& d.at(x, y + 1).kind == CellKind::Bedrock
    &&& d.at(x + 1, y - 1).kind == CellKind::Bedrock
    &&& d.at(x + 1, y).kind == CellKind::Bedrock
    &&& d.at(x + 1, y + 1).kind == CellKind::Bedrock
}

/// What every step of a tick preserves: the count of each material, every
/// `Bedrock` cell (which neither moves nor appears anywhere new), and
/// every sealed sand cell.
pub open spec fn tick_safe(pre: CellData, post: CellData) -> bool {
    &&& forall|k: CellKind| k != CellKind::Air ==> #[trigger] post.count_of(k) == pre.count_of(k)
    &&& forall|x: int, y: int|
        (#[trigger] pre.at(x, y)).kind == CellKind::Bedrock ==> post.at(x, y).kind
            == CellKind::Bedrock
    &&& forall|x: int, y: int|
        (#[trigger] post.at(x, y)).kind == CellKind::Bedrock ==> pre.at(x, y).kind
            == CellKind::Bedrock
    &&& forall|x: int, y: int| #[trigger] sealed(pre, x, y) ==> sealed(post, x, y)
}

proof fn lemma_tick_safe_refl(d: CellData)
    ensures
        tick_safe(d, d),
{
}

proof fn lemma_tick_safe_trans(a: CellData, b: CellData, c: CellData)
    requires
        tick_safe(a, b),
        tick_safe(b, c),
    ensures
        tick_safe(a, c),
{
}

/// The point with these coordinates; meaningful within the addressable
/// range.
pub open spec fn pt_at(x: int, y: int) -> Point {
    Point { x: x as i32, y: y as i32 }
}

/// The materials whose update rules always leave their cell scheduled
/// for the next tick — everything except the two inert kinds and the
/// intentionally sluggish pink sand, which never re-awakens.
pub open spec fn restless(k: CellKind) -> bool {
    &&& k != CellKind::Air
    &&& k != CellKind::Bedrock
    &&& k != CellKind::PinkSand
}

/// Every coordinate whose material changed between the two stores has
/// its whole addressable 3-by-3 neighbourhood scheduled in `post` — the
/// waking discipline that keeps a change from going unexamined.
pub open spec fn wakes_changes(pre: CellData, post: CellData) -> bool {
    forall|x: int, y: int, dx: int, dy: int|
        -1 <= dx <= 1 && -1 <= dy <= 1 && in32(x + dx) && in32(y + dy) && post.at(x, y).kind
            != pre.at(x, y).kind ==> post.pending().contains(#[trigger] near(pt_at(x, y), dx, dy))
}

/// Every interior coordinate named by `marks` that holds a restless
/// material is scheduled in `d`.
pub open spec fn marks_pending(d: CellData, marks: Set<u64>) -> bool {
    forall|x: int, y: int|
        in32(x) && in32(y) && marks.contains(#[trigger] key_at(x, y)) && interior(pt_at(x, y))
            && restless(d.at(x, y).kind) ==> d.pending().contains(pt_at(x, y))
}

/// The two stores hold the same cell at every coordinate.
pub open spec fn same_cells(a: CellData, b: CellData) -> bool {
    forall|x: int, y: int| a.at(x, y) == #[trigger] b.at(x, y)
}

proof fn lemma_wakes_same_kinds(pre: CellData, post: CellData)
    requires
        forall|x: int, y: int| (#[trigger] post.at(x, y)).kind == pre.at(x, y).kind,
    ensures
        wakes_changes(pre, post),
{
}

proof fn lemma_wakes_trans(a: CellData, b: CellData, c: CellData)
    requires
        wakes_changes(a, b),
        wakes_changes(b, c),
        c.pending().len() >= b.pending().len(),
        forall|i: int| 0 <= i < b.pending().len() ==> c.pending()[i] == b.pending()[i],
    ensures
        wakes_changes(a, c),
{
    lemma_pending_extends(b.pending(), c.pending());
    assert forall|x: int, y: int, dx: int, dy: int|
        -1 <= dx <= 1 && -1 <= dy <= 1 && in32(x + dx) && in32(y + dy) && c.at(x, y).kind != a.at(
            x,
            y,
        ).kind implies c.pending().contains(#[trigger] near(pt_at(x, y), dx, dy)) by {
        if c.at(x, y).kind != b.at(x, y).kind {
            assert(c.pending().contains(near(pt_at(x, y), dx, dy)));
        } else {
            assert(b.pending().contains(near(pt_at(x, y), dx, dy)));
        }
    }
}

proof fn lemma_marks_pending_evolve(d0: CellData, d1: CellData, marks: Set<u64>)
    requires
        marks_pending(d0, marks),
        wakes_changes(d0, d1),
        d1.pending().len() >= d0.pending().len(),
        forall|i: int| 0 <= i < d0.pending().len() ==> d1.pending()[i] == d0.pending()[i],
    ensures
        marks_pending(d1, marks),
{
    lemma_pending_extends(d0.pending(), d1.pending());
    assert forall|x: int, y: int|
        in32(x) && in32(y) && marks.contains(#[trigger] key_at(x, y)) && interior(pt_at(x, y))
            && restless(d1.at(x, y).kind) implies d1.pending().contains(pt_at(x, y)) by {
        if d1.at(x, y).kind == d0.at(x, y).kind {
            assert(d0.pending().contains(pt_at(x, y)));
        } else {
            assert(d1.pending().contains(near(pt_at(x, y), 0, 0)));
            assert(near(pt_at(x, y), 0, 0) == pt_at(x, y));
        }
    }
}

proof fn lemma_marks_pending_union(d: CellData, a: Set<u64>, b: Set<u64>)
    requires
        marks_pending(d, a),
        marks_pending(d, b),
    ensures
        marks_pending(d, a.union(b)),
{
}

proof fn lemma_marks_pending_none(d: CellData, marks: Set<u64>)
    requires
        forall|k: u64| !marks.contains(k),
    ensures
        marks_pending(d, marks),
{
}

/// Whether `b` lies within two steps of `a` in each axis.
pub open spec fn within2(a: Point, b: Point) -> bool {
    &&& -2 <= b.x - a.x <= 2
    &&& -2 <= b.y - a.y <= 2
}

/// Whether `e` lies within two steps of some coordinate named by
/// `marks` — the upper bound on how far from a dispatched cell the tick
/// can schedule work.
pub open spec fn near_visited(e: Point, marks: Set<u64>) -> bool {
    exists|x: int, y: int|
        in32(x) && in32(y) && #[trigger] marks.contains(key_at(x, y)) && within2(pt_at(x, y), e)
}

proof fn lemma_near_visited_mono(e: Point, m1: Set<u64>, m2: Set<u64>)
    requires
        near_visited(e, m1),
        m1.subset_of(m2),
    ensures
        near_visited(e, m2),
{
    let (x, y): (int, int) = choose|x: int, y: int|
        in32(x) && in32(y) && #[trigger] m1.contains(key_at(x, y)) && within2(pt_at(x, y), e);
    assert(m2.contains(key_at(x, y)));
}

/// Whether `b` lies in the 3-by-3 block centred on `a`.
pub open spec fn adjacent(a: Point, b: Point) -> bool {
    &&& -1 <= b.x - a.x <= 1
    &&& -1 <= b.y - a.y <= 1
}

/// All offsets in the list stay within one step in each axis.
pub open spec fn small_offsets(offs: Seq<Point>) -> bool {
    forall|i: int|
        0 <= i < offs.len() ==> -1 <= (#[trigger] offs[i]).x <= 1 && -1 <= offs[i].y <= 1
}

/// A candidate that `try_swap` can never refuse: its target is
/// addressable, is not a flagged mover, and is out-densed by at least 9.
pub open spec fn forced(pre: CellData, from: Point, off: Point) -> bool {
    &&& in32(from.x + off.x)
    &&& in32(from.y + off.y)
    &&& spec_density(pre.at(from.x as int, from.y as int).kind) - spec_density(
        pre.at(from.x + off.x, from.y + off.y).kind,
    ) >= 9
    &&& !(pre.at(from.x + off.x, from.y + off.y).kind != CellKind::Air && pre.at(
        from.x + off.x,
        from.y + off.y,
    ).swapped)
}

/// The exact effect of one successful swap from `from` into `to`.
pub open spec fn swap_effect(pre: CellData, post: CellData, from: Point, to: Point) -> bool {
    &&& spec_density(pre.at(from.x as int, from.y as int).kind) - spec_density(
        pre.at(to.x as int, to.y as int).kind,
    ) >= 1
    &&& !(pre.at(to.x as int, to.y as int).kind != CellKind::Air && pre.at(
        to.x as int,
        to.y as int,
    ).swapped)
    &&& post.at(to.x as int, to.y as int) == pre.at(from.x as int, from.y as int)
    &&& post.at(from.x as int, from.y as int) == (if pre.at(to.x as int, to.y as int).kind
        == CellKind::Air {
        air()
    } else {
        (Cell { kind: pre.at(to.x as int, to.y as int).kind, swapped: true })
    })
    &&& forall|x: int, y: int|
        !(x == from.x as int && y == from.y as int) && !(x == to.x as int && y == to.y as int)
            ==> post.at(x, y) == pre.at(x, y)
}

proof fn lemma_density_facts()
    ensures
        forall|k: CellKind| 0 <= #[trigger] spec_density(k) <= 1000,
        forall|k: CellKind| spec_density(k) > 30 ==> k == CellKind::Bedrock,
{
    assert forall|k: CellKind| 0 <= #[trigger] spec_density(k) <= 1000 && (spec_density(k) > 30
        ==> k == CellKind::Bedrock) by {
        match k {
            CellKind::Air => {},
            CellKind::Bedrock => {},
            CellKind::Sand => {},
            CellKind::PinkSand => {},
            CellKind::PurpleSand => {},
            CellKind::BlueSand => {},
            CellKind::Water => {},
            CellKind::Honey => {},
            CellKind::Hydrogen => {},
        }
    }
}

/// The decision at the heart of `try_swap`: the drawn `roll` clears a
/// density advantage exactly when it is at most `density_diff`.
pub fn swap_allowed(density_diff: i32, roll: i32) -> (b: bool)
    ensures
        b == (roll <= density_diff),
{
    roll <= density_diff
}

impl CellData {
    /// The probabilistic swap primitive. The attempt is refused when the
    /// destination holds a non-`Air` cell that already moved this tick;
    /// otherwise a uniform draw from 1 to 9 must not exceed the density
    /// advantage of `from` over `to`. On success the occupants are
    /// exchanged and both neighbourhoods wake; on failure nothing
    /// changes.
    pub fn try_swap(&mut self, from: Point, to: Point) -> (b: bool)
        requires
            old(self).wf(),
        ensures
            final(self).wf(),
            !b ==> *final(self) == *old(self),
            old(self).at(to.x as int, to.y as int).kind != CellKind::Air && old(self).at(
                to.x as int,
                to.y as int,
            ).swapped ==> !b,
            spec_density(old(self).at(from.x as int, from.y as int).kind) <= spec_density(
                old(self).at(to.x as int, to.y as int).kind,
            ) ==> !b,
            spec_density(old(self).at(from.x as int, from.y as int).kind) - spec_density(
                old(self).at(to.x as int, to.y as int).kind,
            ) >= 9 && !(old(self).at(to.x as int, to.y as int).kind != CellKind::Air && old(self).at(to.x as int, to.y as int).swapped) ==> b,
            b ==> swap_effect(*old(self), *final(self), from, to),
            // on success both coordinates' neighbourhoods wake for the
            // next tick
            b ==> forall|dx: int, dy: int|
                -1 <= dx <= 1 && -1 <= dy <= 1 && in32(from.x + dx) && in32(from.y + dy)
                    ==> final(self).pending().contains(#[trigger] near(from, dx, dy)),
            b ==> forall|dx: int, dy: int|
                -1 <= dx <= 1 && -1 <= dy <= 1 && in32(to.x + dx) && in32(to.y + dy)
                    ==> final(self).pending().contains(#[trigger] near(to, dx, dy)),
            wakes_changes(*old(self), *final(self)),
            forall|k: CellKind|
                k != CellKind::Air ==> #[trigger] final(self).count_of(k) == old(self).count_of(k),
            forall|i: int|
                0 <= i < old(self).pending().len() ==> final(self).pending()[i] == old(self).pending()[i],
            final(self).pending().len() >= old(self).pending().len(),
            old(self).at(from.x as int, from.y as int).kind != CellKind::Bedrock && adjacent(
                from,
                to,
            ) ==> tick_safe(*old(self), *final(self)),
            forall|i: int|
                old(self).pending().len() <= i < final(self).pending().len() ==> adjacent(
                    from,
                    #[trigger] final(self).pending()[i],
                ) || adjacent(to, final(self).pending()[i]),
    {
        let toc = self.cell_at(to);
        if toc.not_air() && toc.swapped {
            proof {
                lemma_tick_safe_refl(*self);
                lemma_wakes_same_kinds(*old(self), *self);
            }
            return false;
        }
        let fromc = self.cell_at(from);
        proof {
            lemma_density_facts();
        }
        let density_diff = fromc.density() - toc.density();
        let roll = random_in(1, 10);
        if swap_allowed(density_diff, roll) {
            self.swap_cells(from, to);
            proof {
                let pre = *old(self);
                let post = *self;
                let fx = from.x as int;
                let fy = from.y as int;
                let tx = to.x as int;
                let ty = to.y as int;
                assert forall|x: int, y: int, dx: int, dy: int|
                    -1 <= dx <= 1 && -1 <= dy <= 1 && in32(x + dx) && in32(y + dy) && post.at(
                        x,
                        y,
                    ).kind != pre.at(x, y).kind implies post.pending().contains(
                    #[trigger] near(pt_at(x, y), dx, dy),
                ) by {
                    if x == fx && y == fy {
                        assert(pt_at(x, y) == from);
                        assert(post.pending().contains(near(from, dx, dy)));
                    } else if x == tx && y == ty {
                        assert(pt_at(x, y) == to);
                        assert(post.pending().contains(near(to, dx, dy)));
                    } else {
                        assert(post.at(x, y) == pre.at(x, y));
                    }
                }
                if pre.at(fx, fy).kind != CellKind::Bedrock && adjacent(from, to) {
                    assert(spec_density(pre.at(tx, ty).kind) < spec_density(pre.at(fx, fy).kind));
                    assert(pre.at(tx, ty).kind != CellKind::Bedrock);
                    assert forall|x: int, y: int|
                        (#[trigger] pre.at(x, y)).kind == CellKind::Bedrock implies post.at(
                        x,
                        y,
                    ).kind == CellKind::Bedrock by {
                        assert(!(x == fx && y == fy));
                        assert(!(x == tx && y == ty));
                    }
                    assert forall|x: int, y: int|
                        (#[trigger] post.at(x, y)).kind == CellKind::Bedrock implies pre.at(
                        x,
                        y,
                    ).kind == CellKind::Bedrock by {
                        if x == fx && y == fy {
                            // the displaced occupant was strictly less
                            // dense than its source, so it is no Bedrock
                            assert(pre.at(tx, ty).kind != CellKind::Bedrock);
                        } else if x == tx && y == ty {
                            assert(pre.at(fx, fy).kind != CellKind::Bedrock);
                        }
                    }
                    assert forall|x: int, y: int| #[trigger] sealed(pre, x, y) implies sealed(
                        post,
                        x,
                        y,
                    ) by {
                        // `from` holds no Bedrock, so it is none of the
                        // eight ring coordinates; `to` is neither, since a
                        // successful destination is strictly less dense
                        // than its source.
                        assert(pre.at(tx, ty).kind != CellKind::Bedrock);
                        // `to` cannot be the centre: displacing Sand needs
                        // a density above 30, which only Bedrock has.
                        assert(!(tx == x && ty == y));
                        // `from` cannot be the centre: every adjacent
                        // destination is the centre itself or ring
                        // Bedrock, and both are ruled out.
                        assert(!(fx == x && fy == y));
                    }
                }
            }
            true
        } else {
            proof {
                lemma_tick_safe_refl(*self);
                lemma_wakes_same_kinds(*old(self), *self);
            }
            false
        }
    }

    /// Try `try_swap(from, from + offset)` for each offset in order,
    /// stopping at the first success; offsets whose target leaves the
    /// addressable range are refused. Returns whether any attempt
    /// succeeded.
    pub fn multi_try_swap(&mut self, from: Point, offsets: &[Point]) -> (b: bool)
        requires
            old(self).wf(),
        ensures
            final(self).wf(),
            !b ==> *final(self) == *old(self),
            !b ==> forall|i: int|
                0 <= i < offsets@.len() ==> !forced(*old(self), from, #[trigger] offsets@[i]),
            // the first success wins: when candidate `i` swapped, no
            // earlier candidate was owed success
            b ==> exists|i: int|
                0 <= i < offsets@.len() && in32(from.x + (#[trigger] offsets@[i]).x) && in32(
                    from.y + offsets@[i].y,
                ) && swap_effect(
                    *old(self),
                    *final(self),
                    from,
                    near(from, offsets@[i].x as int, offsets@[i].y as int),
                ) && (forall|j: int| 0 <= j < i ==> !forced(*old(self), from, #[trigger] offsets@[j])),
            // on success the mover's own neighbourhood wakes for the
            // next tick
            b ==> forall|dx: int, dy: int|
                -1 <= dx <= 1 && -1 <= dy <= 1 && in32(from.x + dx) && in32(from.y + dy)
                    ==> final(self).pending().contains(#[trigger] near(from, dx, dy)),
            wakes_changes(*old(self), *final(self)),
            forall|k: CellKind|
                k != CellKind::Air ==> #[trigger] final(self).count_of(k) == old(self).count_of(k),
            forall|i: int|
                0 <= i < old(self).pending().len() ==> final(self).pending()[i] == old(self).pending()[i],
            final(self).pending().len() >= old(self).pending().len(),
            old(self).at(from.x as int, from.y as int).kind != CellKind::Bedrock && small_offsets(
                offsets@,
            ) ==> tick_safe(*old(self), *final(self)),
            small_offsets(offsets@) ==> forall|i: int|
                old(self).pending().len() <= i < final(self).pending().len() ==> within2(
                    from,
                    #[trigger] final(self).pending()[i],
                ),
    {
        let mut i: usize = 0;
        while i < offsets.len()
            invariant
                old(self).wf(),
                0 <= i <= offsets@.len(),
                *self == *old(self),
                forall|j: int| 0 <= j < i ==> !forced(*old(self), from, #[trigger] offsets@[j]),
            decreases offsets@.len() - i,
        {
            let off = offsets[i];
            let tx = from.x as i64 + off.x as i64;
            let ty = from.y as i64 + off.y as i64;
            if tx >= i32::MIN as i64 && tx <= i32::MAX as i64 && ty >= i32::MIN as i64 && ty
                <= i32::MAX as i64 {
                let target = Point { x: tx as i32, y: ty as i32 };
                proof {
                    assert(target == near(from, off.x as int, off.y as int));
                }
                if self.try_swap(from, target) {
                    proof {
                        let gi = i as int;
                        assert(in32(from.x + offsets@[gi].x) && in32(from.y + offsets@[gi].y)
                            && swap_effect(
                            *old(self),
                            *self,
                            from,
                            near(from, offsets@[gi].x as int, offsets@[gi].y as int),
                        ) && (forall|j: int|
                            0 <= j < gi ==> !forced(*old(self), from, #[trigger] offsets@[j])));
                    }
                    return true;
                }
            }
            i = i + 1;
        }
        proof {
            lemma_tick_safe_refl(*self);
            lemma_wakes_same_kinds(*old(self), *self);
        }
        false
    }
}

proof fn lemma_tick_safe_same_kinds(pre: CellData, post: CellData)
    requires
        forall|x: int, y: int| (#[trigger] post.at(x, y)).kind == pre.at(x, y).kind,
        forall|k: CellKind| k != CellKind::Air ==> #[trigger] post.count_of(k) == pre.count_of(k),
    ensures
        tick_safe(pre, post),
{
}

/// One legal dispatch of coordinate `q` per the dispatcher's rules: the
/// visit is recorded; a revisit changes nothing; an inert or edge cell
/// only has its movement budget reset; a restless cell stays scheduled;
/// a cell left exactly in place was owed no success anywhere in its
/// candidate list; and the step preserves what every tick preserves.
pub open spec fn dispatch_step(
    pre: CellData,
    post: CellData,
    mpre: Set<u64>,
    mpost: Set<u64>,
    q: Point,
) -> bool {
    &&& pre.wf() ==> post.wf()
    &&& tick_safe(pre, post)
    &&& wakes_changes(pre, post)
    &&& post.pending().len() >= pre.pending().len()
    &&& forall|i: int| 0 <= i < pre.pending().len() ==> post.pending()[i] == pre.pending()[i]
    &&& mpre.subset_of(mpost)
    &&& mpost.contains(key_at(q.x as int, q.y as int))
    &&& mpre.contains(key_at(q.x as int, q.y as int)) ==> post == pre && mpost == mpre
    &&& marks_pending(post, mpost.difference(mpre))
    &&& !mpre.contains(key_at(q.x as int, q.y as int)) && (pre.at(q.x as int, q.y as int).kind
        == CellKind::Air || pre.at(q.x as int, q.y as int).kind == CellKind::Bedrock || !interior(
        q,
    )) ==> post.at(q.x as int, q.y as int) == (Cell {
        kind: pre.at(q.x as int, q.y as int).kind,
        swapped: false,
    }) && (forall|x: int, y: int|
        !(x == q.x as int && y == q.y as int) ==> post.at(x, y) == pre.at(x, y)) && post.pending()
        == pre.pending() && mpost == mpre.insert(key_at(q.x as int, q.y as int))
    &&& !mpre.contains(key_at(q.x as int, q.y as int)) && interior(q) && restless(
        pre.at(q.x as int, q.y as int).kind,
    ) ==> post.pending().contains(q)
    &&& !mpre.contains(key_at(q.x as int, q.y as int)) && interior(q) && pre.at(
        q.x as int,
        q.y as int,
    ) == (Cell { kind: CellKind::Water, swapped: false }) && post.at(q.x as int, q.y as int)
        == pre.at(q.x as int, q.y as int) ==> (forall|i: int|
        0 <= i < fall_slide_offsets().len() ==> !forced(post, q, #[trigger] fall_slide_offsets()[i]))
    &&& !mpre.contains(key_at(q.x as int, q.y as int)) && interior(q) && pre.at(
        q.x as int,
        q.y as int,
    ) == (Cell { kind: CellKind::Honey, swapped: false }) && post.at(q.x as int, q.y as int)
        == pre.at(q.x as int, q.y as int) ==> (forall|i: int|
        0 <= i < fall_tumble_offsets().len() ==> !forced(
            post,
            q,
            #[trigger] fall_tumble_offsets()[i],
        ))
    &&& !mpre.contains(key_at(q.x as int, q.y as int)) && interior(q) && pre.at(
        q.x as int,
        q.y as int,
    ) == (Cell { kind: CellKind::Sand, swapped: false }) && post.at(q.x as int, q.y as int)
        == pre.at(q.x as int, q.y as int) ==> (forall|i: int|
        0 <= i < fall_tumble_offsets().len() ==> !forced(
            post,
            q,
            #[trigger] fall_tumble_offsets()[i],
        ))
    &&& !mpre.contains(key_at(q.x as int, q.y as int)) && interior(q) && pre.at(
        q.x as int,
        q.y as int,
    ) == (Cell { kind: CellKind::PinkSand, swapped: false }) && post.at(q.x as int, q.y as int)
        == pre.at(q.x as int, q.y as int) ==> (forall|i: int|
        0 <= i < tumble_offsets().len() ==> !forced(post, q, #[trigger] tumble_offsets()[i]))
    &&& !mpre.contains(key_at(q.x as int, q.y as int)) && interior(q) && pre.at(
        q.x as int,
        q.y as int,
    ) == (Cell { kind: CellKind::PurpleSand, swapped: false }) && post.at(q.x as int, q.y as int)
        == pre.at(q.x as int, q.y as int) ==> (forall|i: int|
        0 <= i < tumble_rise_offsets().len() ==> !forced(
            post,
            q,
            #[trigger] tumble_rise_offsets()[i],
        ))
    &&& !mpre.contains(key_at(q.x as int, q.y as int)) && interior(q) && pre.at(
        q.x as int,
        q.y as int,
    ) == (Cell { kind: CellKind::BlueSand, swapped: false }) && post.at(q.x as int, q.y as int)
        == pre.at(q.x as int, q.y as int) ==> (forall|i: int|
        0 <= i < fall_tumble_rise_offsets().len() ==> !forced(
            post,
            q,
            #[trigger] fall_tumble_rise_offsets()[i],
        ))
}

/// A whole tick as a chain of dispatches: from the drained entry state
/// (same cells as at entry, nothing scheduled, nothing visited), one
/// legal dispatch of each drained coordinate in order leads to the final
/// state.
pub open spec fn tick_trace(
    trace: Seq<CellData>,
    marks: Seq<Set<u64>>,
    drained: Seq<Point>,
    start: CellData,
    fin: CellData,
    fin_marks: Set<u64>,
) -> bool {
    &&& trace.len() == drained.len() + 1
    &&& marks.len() == trace.len()
    &&& same_cells(trace[0], start)
    &&& trace[0].wf() == start.wf()
    &&& trace[0].pending() == Seq::<Point>::empty()
    &&& forall|k: CellKind| #[trigger] trace[0].count_of(k) == start.count_of(k)
    &&& marks[0] == Set::<u64>::empty()
    &&& forall|i: int|
        0 <= i < drained.len() ==> dispatch_step(
            trace[i],
            trace[i + 1],
            marks[i],
            marks[i + 1],
            #[trigger] drained[i],
        )
    &&& trace[trace.len() - 1] == fin
    &&& marks[marks.len() - 1] == fin_marks
}

/// A coordinate that is not on the very edge of the addressable range,
/// so that all eight neighbours exist. The dispatcher leaves edge cells
/// untouched.
pub open spec fn interior(p: Point) -> bool {
    &&& p.x != i32::MIN
    &&& p.x != i32::MAX
    &&& p.y != i32::MIN
    &&& p.y != i32::MAX
}

/// The driver: the store, the set of coordinates drained this tick, and
/// the per-tick visited set that keeps the recursive dispatch from
/// running twice for one coordinate.
#[derive(Debug)]
pub struct Cells {
    data: CellData,
    skip: std::collections::HashSet<u64>,
}

impl Cells {
    /// The driver's cell store.
    pub closed spec fn store(self) -> CellData {
        self.data
    }

    /// The store keys of the coordinates dispatched so far this tick.
    pub closed spec fn visited(self) -> Set<u64> {
        self.skip@
    }

    /// The store holds no explicit `Air` entries.
    pub open spec fn wf(self) -> bool {
        self.store().wf()
    }

    /// An empty world: an infinite plane of `Air`.
    pub fn new() -> (c: Cells)
        ensures
            c.wf(),
            forall|x: int, y: int| c.store().at(x, y) == air(),
            c.store().pending() == Seq::<Point>::empty(),
            forall|k: CellKind| c.store().count_of(k) == 0,
    {
        Cells { data: CellData::new(), skip: std::collections::HashSet::new() }
    }

    /// Read-only view of a coordinate; `Air` where nothing is stored.
    pub fn cell_at(&self, p: Point) -> (c: Cell)
        ensures
            c == self.store().at(p.x as int, p.y as int),
    {
        self.data.cell_at(p)
    }

    /// Place `cell` at `p`, replacing any prior occupant and waking the
    /// 3-by-3 neighbourhood of `p` for the next tick.
    pub fn set_cell(&mut self, p: Point, cell: Cell)
        requires
            old(self).wf(),
        ensures
            final(self).wf(),
            final(self).store().at(p.x as int, p.y as int) == (if cell.kind == CellKind::Air {
                air()
            } else {
                cell
            }),
            forall|x: int, y: int|
                !(x == p.x as int && y == p.y as int) ==> final(self).store().at(x, y) == old(self).store().at(x, y),
            forall|dx: int, dy: int|
                -1 <= dx <= 1 && -1 <= dy <= 1 && in32(p.x + dx) && in32(p.y + dy)
                    ==> final(self).store().pending().contains(#[trigger] near(p, dx, dy)),
            forall|k: CellKind|
                k != CellKind::Air ==> #[trigger] final(self).store().count_of(k) as int == old(self).store().count_of(k) as int - (if old(self).store().at(
                    p.x as int,
                    p.y as int,
                ).kind == k {
                    1int
                } else {
                    0
                }) + (if cell.kind == k {
                    1int
                } else {
                    0
                }),
    {
        self.data.set_cell(p, cell);
    }

    /// How many coordinates are scheduled for examination on the next
    /// tick.
    pub fn active_len(&self) -> (n: usize)
        ensures
            n == self.store().pending().len(),
    {
        self.data.pending_len()
    }

    /// Advance the world by one tick: drain the coordinates that were
    /// scheduled for this tick and dispatch each one once, letting the
    /// rules reschedule whatever may still move. A tick never creates or
    /// destroys material, never touches a `Bedrock` cell, and never moves
    /// a sand cell that is walled in by `Bedrock`.
    pub fn update_all(&mut self)
        requires
            old(self).wf(),
        ensures
            final(self).wf(),
            tick_safe(old(self).store(), final(self).store()),
            // every coordinate that was scheduled for this tick has been
            // dispatched
            forall|j: int|
                0 <= j < old(self).store().pending().len() ==> final(self).visited().contains(
                    key_at(
                        (#[trigger] old(self).store().pending()[j]).x as int,
                        old(self).store().pending()[j].y as int,
                    ),
                ),
            // the next tick's schedule is rebuilt from this tick's
            // activity: every coordinate whose material changed has its
            // whole neighbourhood scheduled again
            wakes_changes(old(self).store(), final(self).store()),
            // and a dispatched interior coordinate that still holds a
            // restless material stays scheduled rather than going dormant
            forall|j: int|
                0 <= j < old(self).store().pending().len() && interior(
                    #[trigger] old(self).store().pending()[j],
                ) && restless(
                    final(self).store().at(
                        old(self).store().pending()[j].x as int,
                        old(self).store().pending()[j].y as int,
                    ).kind,
                ) ==> final(self).store().pending().contains(old(self).store().pending()[j]),
            // the schedule is bounded from above as well: everything it
            // holds lies within two steps of a coordinate dispatched
            // this tick
            forall|i: int|
                0 <= i < final(self).store().pending().len() ==> near_visited(
                    #[trigger] final(self).store().pending()[i],
                    final(self).visited(),
                ),
            // the tick is a chain of dispatches: some legal dispatch of
            // each drained coordinate in order leads from the drained
            // entry state to the final state
            exists|trace: Seq<CellData>, marks: Seq<Set<u64>>|
                #[trigger] tick_trace(
                    trace,
                    marks,
                    old(self).store().pending(),
                    old(self).store(),
                    final(self).store(),
                    final(self).visited(),
                ),
    {
        let current = self.data.take_pending();
        self.skip.clear();
        let n = self.data.len();
        let fuel = if n < usize::MAX {
            n + 1
        } else {
            n
        };
        let ghost entry = self.data;
        let ghost mut trace: Seq<CellData> = seq![entry];
        let ghost mut trace_marks: Seq<Set<u64>> = seq![self.skip@];
        proof {
            lemma_tick_safe_refl(entry);
            lemma_wakes_same_kinds(entry, entry);
            lemma_marks_pending_none(self.data, self.skip@);
        }
        let mut i: usize = 0;
        while i < current.len()
            invariant
                0 <= i <= current@.len(),
                fuel >= 1,
                current@ == old(self).store().pending(),
                self.data.wf(),
                tick_safe(entry, self.data),
                wakes_changes(entry, self.data),
                marks_pending(self.data, self.skip@),
                forall|j: int|
                    0 <= j < i ==> self.skip@.contains(
                        key_at((#[trigger] current@[j]).x as int, current@[j].y as int),
                    ),
                forall|idx: int|
                    0 <= idx < self.data.pending().len() ==> near_visited(
                        #[trigger] self.data.pending()[idx],
                        self.skip@,
                    ),
                trace.len() == i + 1,
                trace_marks.len() == i + 1,
                trace[0] == entry,
                trace_marks[0] == Set::<u64>::empty(),
                trace[i as int] == self.data,
                trace_marks[i as int] == self.skip@,
                forall|j: int|
                    0 <= j < i ==> dispatch_step(
                        trace[j],
                        trace[j + 1],
                        trace_marks[j],
                        trace_marks[j + 1],
                        #[trigger] current@[j],
                    ),
            decreases current@.len() - i,
        {
            let ghost before = self.data;
            let ghost marks_before = self.skip@;
            update_cell(&mut self.data, &mut self.skip, current[i], fuel);
            proof {
                lemma_tick_safe_trans(entry, before, self.data);
                lemma_wakes_trans(entry, before, self.data);
                lemma_marks_pending_evolve(before, self.data, marks_before);
                lemma_marks_pending_union(
                    self.data,
                    marks_before,
                    self.skip@.difference(marks_before),
                );
                assert(self.skip@ =~= marks_before.union(self.skip@.difference(marks_before)));
                assert forall|idx: int|
                    0 <= idx < self.data.pending().len() implies near_visited(
                    #[trigger] self.data.pending()[idx],
                    self.skip@,
                ) by {
                    if idx < before.pending().len() {
                        assert(self.data.pending()[idx] == before.pending()[idx]);
                        lemma_near_visited_mono(self.data.pending()[idx], marks_before, self.skip@);
                    }
                }
                trace = trace.push(self.data);
                trace_marks = trace_marks.push(self.skip@);
                assert(dispatch_step(
                    before,
                    self.data,
                    marks_before,
                    self.skip@,
                    current@[i as int],
                ));
            }
            i = i + 1;
        }
        proof {
            lemma_tick_safe_same_kinds(old(self).store(), entry);
            lemma_tick_safe_trans(old(self).store(), entry, self.data);
            lemma_wakes_same_kinds(old(self).store(), entry);
            lemma_wakes_trans(old(self).store(), entry, self.data);
            // a drained coordinate that still holds a restless material
            // is back on the schedule: it was visited, and visited
            // restless coordinates are pending
            assert forall|j: int|
                0 <= j < old(self).store().pending().len() && interior(
                    #[trigger] old(self).store().pending()[j],
                ) && restless(
                    self.data.at(
                        old(self).store().pending()[j].x as int,
                        old(self).store().pending()[j].y as int,
                    ).kind,
                ) implies self.data.pending().contains(old(self).store().pending()[j]) by {
                let q = old(self).store().pending()[j];
                assert(self.skip@.contains(key_at(q.x as int, q.y as int)));
                assert(pt_at(q.x as int, q.y as int) == q);
                assert(self.data.pending().contains(pt_at(q.x as int, q.y as int)));
            }
            // the recorded states witness the dispatch chain
            assert(same_cells(entry, old(self).store()));
            assert(tick_trace(
                trace,
                trace_marks,
                old(self).store().pending(),
                old(self).store(),
                self.store(),
                self.visited(),
            ));
        }
    }
}

/// The dispatcher: runs a coordinate's material rule at most once per
/// tick. It skips coordinates already visited this tick, records the
/// visit, resets the cell's per-tick movement budget, and leaves cells on
/// the very edge of the addressable range untouched. `fuel` bounds the
/// depth of the recursive pre-update walk; the driver hands out more of
/// it than any dependency chain through stored cells can consume.
fn update_cell(
    data: &mut CellData,
    skip: &mut std::collections::HashSet<u64>,
    p: Point,
    fuel: usize,
)
    requires
        old(data).wf(),
    ensures
        final(data).wf(),
        tick_safe(*old(data), *final(data)),
        forall|i: int|
            0 <= i < old(data).pending().len() ==> final(data).pending()[i] == old(data).pending()[i],
        final(data).pending().len() >= old(data).pending().len(),
        old(skip)@.subset_of(final(skip)@),
        fuel > 0 ==> final(skip)@.contains(key_at(p.x as int, p.y as int)),
        old(skip)@.contains(key_at(p.x as int, p.y as int)) ==> *final(data) == *old(data)
            && final(skip)@ == old(skip)@,
        wakes_changes(*old(data), *final(data)),
        marks_pending(*final(data), final(skip)@.difference(old(skip)@)),
        // whatever the visit schedules lies within two steps of a
        // visited coordinate
        forall|i: int|
            old(data).pending().len() <= i < final(data).pending().len() ==> near_visited(
                #[trigger] final(data).pending()[i],
                final(skip)@,
            ),
        // a fresh visit to an inert or edge coordinate only resets the
        // cell's per-tick movement budget and records the visit
        fuel > 0 && !old(skip)@.contains(key_at(p.x as int, p.y as int)) && (old(data).at(
            p.x as int,
            p.y as int,
        ).kind == CellKind::Air || old(data).at(p.x as int, p.y as int).kind == CellKind::Bedrock
            || !interior(p)) ==> final(data).at(p.x as int, p.y as int) == (Cell {
            kind: old(data).at(p.x as int, p.y as int).kind,
            swapped: false,
        }) && (forall|x: int, y: int|
            !(x == p.x as int && y == p.y as int) ==> final(data).at(x, y) == old(data).at(x, y))
            && final(data).pending() == old(data).pending() && final(skip)@ == old(skip)@.insert(key_at(p.x as int, p.y as int)),
        // a fresh visit to a restless interior coordinate leaves it
        // scheduled for the next tick
        fuel > 0 && !old(skip)@.contains(key_at(p.x as int, p.y as int)) && interior(p)
            && restless(old(data).at(p.x as int, p.y as int).kind) ==> final(data).pending().contains(p),
        // a fresh interior visit that leaves the cell exactly in place
        // owes no success anywhere in that material's candidate list
        fuel > 0 && !old(skip)@.contains(key_at(p.x as int, p.y as int)) && interior(p)
            && old(data).at(p.x as int, p.y as int) == (Cell {
            kind: CellKind::Water,
            swapped: false,
        }) && final(data).at(p.x as int, p.y as int) == old(data).at(p.x as int, p.y as int)
            ==> (forall|i: int|
            0 <= i < fall_slide_offsets().len() ==> !forced(*final(data), p, #[trigger] fall_slide_offsets()[i])),
        fuel > 0 && !old(skip)@.contains(key_at(p.x as int, p.y as int)) && interior(p)
            && old(data).at(p.x as int, p.y as int) == (Cell {
            kind: CellKind::Honey,
            swapped: false,
        }) && final(data).at(p.x as int, p.y as int) == old(data).at(p.x as int, p.y as int)
            ==> (forall|i: int|
            0 <= i < fall_tumble_offsets().len() ==> !forced(*final(data), p, #[trigger] fall_tumble_offsets()[i])),
        fuel > 0 && !old(skip)@.contains(key_at(p.x as int, p.y as int)) && interior(p)
            && old(data).at(p.x as int, p.y as int) == (Cell {
            kind: CellKind::Sand,
            swapped: false,
        }) && final(data).at(p.x as int, p.y as int) == old(data).at(p.x as int, p.y as int)
            ==> (forall|i: int|
            0 <= i < fall_tumble_offsets().len() ==> !forced(*final(data), p, #[trigger] fall_tumble_offsets()[i])),
        fuel > 0 && !old(skip)@.contains(key_at(p.x as int, p.y as int)) && interior(p)
            && old(data).at(p.x as int, p.y as int) == (Cell {
            kind: CellKind::PinkSand,
            swapped: false,
        }) && final(data).at(p.x as int, p.y as int) == old(data).at(p.x as int, p.y as int)
            ==> (forall|i: int|
            0 <= i < tumble_offsets().len() ==> !forced(*final(data), p, #[trigger] tumble_offsets()[i])),
        fuel > 0 && !old(skip)@.contains(key_at(p.x as int, p.y as int)) && interior(p)
            && old(data).at(p.x as int, p.y as int) == (Cell {
            kind: CellKind::PurpleSand,
            swapped: false,
        }) && final(data).at(p.x as int, p.y as int) == old(data).at(p.x as int, p.y as int)
            ==> (forall|i: int|
            0 <= i < tumble_rise_offsets().len() ==> !forced(*final(data), p, #[trigger] tumble_rise_offsets()[i])),
        fuel > 0 && !old(skip)@.contains(key_at(p.x as int, p.y as int)) && interior(p)
            && old(data).at(p.x as int, p.y as int) == (Cell {
            kind: CellKind::BlueSand,
            swapped: false,
        }) && final(data).at(p.x as int, p.y as int) == old(data).at(p.x as int, p.y as int)
            ==> (forall|i: int|
            0 <= i < fall_tumble_rise_offsets().len() ==> !forced(*final(data), p, #[trigger] fall_tumble_rise_offsets()[i])),
    decreases fuel, 1int,
{
    proof {
        lemma_tick_safe_refl(*data);
        lemma_wakes_same_kinds(*data, *data);
    }
    if fuel == 0 {
        proof {
            lemma_marks_pending_none(*data, skip@.difference(skip@));
        }
        return ;
    }
    let key = key_of(p);
    if skip.contains(&key) {
        proof {
            lemma_marks_pending_none(*data, skip@.difference(skip@));
        }
        return ;
    }
    let ghost s0 = skip@;
    skip.insert(key);
    let ghost s1 = skip@;
    let ghost d0 = *data;
    data.clear_swapped(p);
    proof {
        assert forall|x: int, y: int| ((#[trigger] data.at(x, y)).kind == d0.at(x, y).kind) by {
            if !(x == p.x as int && y == p.y as int) {
                assert(data.at(x, y) == d0.at(x, y));
            }
        }
        lemma_tick_safe_same_kinds(d0, *data);
        lemma_wakes_same_kinds(d0, *data);
    }
    if p.x == i32::MIN || p.x == i32::MAX || p.y == i32::MIN || p.y == i32::MAX {
        proof {
            lemma_update_visit_marks(*data, s0, p);
        }
        return ;
    }
    let ghost d1 = *data;
    let c = data.cell_at(p);
    match c.kind {
        CellKind::Air => (),
        CellKind::Bedrock => (),
        CellKind::Water => water_update(data, skip, p, fuel),
        CellKind::Honey => honey_update(data, skip, p, fuel),
        CellKind::Sand => sand_update(data, skip, p, fuel),
        CellKind::PinkSand => pink_sand_update(data, skip, p, fuel),
        CellKind::PurpleSand => purple_sand_update(data, skip, p, fuel),
        CellKind::BlueSand => blue_sand_update(data, skip, p, fuel),
        CellKind::Hydrogen => hydrogen_update(data, skip, p, fuel),
    }
    proof {
        lemma_tick_safe_trans(d0, d1, *data);
        lemma_wakes_trans(d0, d1, *data);
        // the rule's own fresh visits are scheduled where restless, and
        // so is the dispatched coordinate itself
        let px = p.x as int;
        let py = p.y as int;
        assert(marks_pending(*data, skip@.difference(s1)));
        assert forall|x: int, y: int|
            in32(x) && in32(y) && s1.difference(s0).contains(#[trigger] key_at(x, y)) && interior(
                pt_at(x, y),
            ) && restless(data.at(x, y).kind) implies data.pending().contains(pt_at(x, y)) by {
            lemma_key_injective(x, y, px, py);
            if data.at(px, py).kind == d1.at(px, py).kind {
                assert(data.pending().contains(p));
            } else {
                assert(data.pending().contains(near(pt_at(px, py), 0, 0)));
                assert(near(pt_at(px, py), 0, 0) == pt_at(px, py));
            }
        }
        lemma_marks_pending_union(*data, s1.difference(s0), skip@.difference(s1));
        assert(skip@.difference(s0) =~= s1.difference(s0).union(skip@.difference(s1)));
        assert forall|i: int|
            d0.pending().len() <= i < data.pending().len() implies near_visited(
            #[trigger] data.pending()[i],
            skip@,
        ) by {
            assert(d1.pending() == d0.pending());
        }
    }
}

/// After a visit that ran no rule, the only freshly visited coordinate
/// is the inert or edge cell itself, which is never restless.
proof fn lemma_update_visit_marks(d: CellData, s0: Set<u64>, p: Point)
    requires
        !restless(d.at(p.x as int, p.y as int).kind) || !interior(p),
    ensures
        marks_pending(d, s0.insert(key_at(p.x as int, p.y as int)).difference(s0)),
{
    let marks = s0.insert(key_at(p.x as int, p.y as int)).difference(s0);
    assert forall|x: int, y: int|
        in32(x) && in32(y) && marks.contains(#[trigger] key_at(x, y)) && interior(pt_at(x, y))
            && restless(d.at(x, y).kind) implies d.pending().contains(pt_at(x, y)) by {
        lemma_key_injective(x, y, p.x as int, p.y as int);
    }
}

/// Water: resolve the cells below and to both sides first, then take the
/// first swap that succeeds out of straight down, the two falling
/// diagonals, and the two level slides, mirror order picked by a coin
/// flip. In every outcome the cell stays scheduled; it stays put only
/// when no candidate was owed success.
#[verifier::rlimit(50)]
fn water_update(
    data: &mut CellData,
    skip: &mut std::collections::HashSet<u64>,
    p: Point,
    fuel: usize,
)
    requires
        old(data).wf(),
        fuel >= 1,
        old(data).at(p.x as int, p.y as int).kind == CellKind::Water,
        old(data).at(p.x as int, p.y as int).swapped == false,
        interior(p),
        old(skip)@.contains(key_at(p.x as int, p.y as int)),
    ensures
        final(data).wf(),
        tick_safe(*old(data), *final(data)),
        forall|i: int|
            0 <= i < old(data).pending().len() ==> final(data).pending()[i] == old(data).pending()[i],
        final(data).pending().len() >= old(data).pending().len(),
        old(skip)@.subset_of(final(skip)@),
        forall|i: int|
            old(data).pending().len() <= i < final(data).pending().len() ==> near_visited(
                #[trigger] final(data).pending()[i],
                final(skip)@,
            ),
        final(data).pending().contains(p),
        // the pre-updated neighbours are visited, given fuel for the
        // recursion
        fuel >= 2 ==> final(skip)@.contains(key_at(p.x as int, p.y as int - 1)),
        fuel >= 2 ==> final(skip)@.contains(key_at(p.x as int + 1, p.y as int)),
        fuel >= 2 ==> final(skip)@.contains(key_at(p.x as int - 1, p.y as int)),
        wakes_changes(*old(data), *final(data)),
        marks_pending(*final(data), final(skip)@.difference(old(skip)@)),
        final(data).at(p.x as int, p.y as int) == old(data).at(p.x as int, p.y as int)
            ==> forall|i: int|
            0 <= i < fall_slide_offsets().len() ==> !forced(
                *final(data),
                p,
                #[trigger] fall_slide_offsets()[i],
            ),
        exists|mid: CellData|
            #[trigger] tick_safe(*old(data), mid) && (same_cells(mid, *final(data)) || (
            exists|i: int|
                0 <= i < fall_slide_offsets().len() && in32(
                    p.x + (#[trigger] fall_slide_offsets()[i]).x,
                ) && in32(p.y + fall_slide_offsets()[i].y) && swap_effect(
                    mid,
                    *final(data),
                    p,
                    near(p, fall_slide_offsets()[i].x as int, fall_slide_offsets()[i].y as int),
                ) && (forall|j: int|
                    0 <= j < fall_slide_offsets().len() && fall_slide_rank(j) < fall_slide_rank(i) ==> !forced(
                        mid,
                        p,
                        #[trigger] fall_slide_offsets()[j],
                    )))),
    decreases fuel, 0int,
{
    let ghost d0 = *data;
    let ghost s0 = skip@;
    update_cell(data, skip, p.add(crate::point::down()), fuel - 1);
    let ghost d1 = *data;
    let ghost s1 = skip@;
    update_cell(data, skip, p.add(crate::point::right()), fuel - 1);
    proof {
        lemma_tick_safe_trans(d0, d1, *data);
        lemma_wakes_trans(d0, d1, *data);
        lemma_marks_pending_evolve(d1, *data, s1.difference(s0));
        lemma_marks_pending_union(*data, s1.difference(s0), skip@.difference(s1));
    }
    let ghost d2 = *data;
    let ghost s2 = skip@;
    let ghost m2 = s1.difference(s0).union(s2.difference(s1));
    update_cell(data, skip, p.add(crate::point::left()), fuel - 1);
    proof {
        lemma_tick_safe_trans(d0, d2, *data);
        lemma_wakes_trans(d0, d2, *data);
        lemma_marks_pending_evolve(d2, *data, m2);
        lemma_marks_pending_union(*data, m2, skip@.difference(s2));
    }
    let ghost d3 = *data;
    let ghost s3 = skip@;
    let ghost m3 = m2.union(s3.difference(s2));

    let pref = random_pref();
    let side: i32 = if pref {
        1
    } else {
        -1
    };
    let targets = fall_slide(side);
    proof {
        assert(small_offsets(targets@));
        assert(d3.at(p.x as int, p.y as int).kind != CellKind::Bedrock);
    }
    let moved = data.multi_try_swap(p, &targets);
    proof {
        lemma_tick_safe_trans(d0, d3, *data);
        lemma_wakes_trans(d0, d3, *data);
        lemma_marks_pending_evolve(d3, *data, m3);
    }
    let ghost d4 = *data;
    if !moved {
        data.awaken(p);
        proof {
            lemma_tick_safe_same_kinds(d4, *data);
            lemma_tick_safe_trans(d0, d4, *data);
            lemma_wakes_same_kinds(d4, *data);
            lemma_wakes_trans(d0, d4, *data);
            lemma_marks_pending_evolve(d4, *data, m3);
            assert(data.pending()[d4.pending().len() as int] == p);
        }
    } else {
        proof {
            assert(data.pending().contains(near(p, 0, 0)));
            assert(near(p, 0, 0) == p);
        }
    }
    proof {
        assert(skip@.difference(s0) =~= m3);
        if !moved {
            assert(same_cells(d3, *data));
            assert forall|i: int| 0 <= i < fall_slide_offsets().len() implies !forced(
                *data,
                p,
                #[trigger] fall_slide_offsets()[i],
            ) by {
                let off = fall_slide_offsets()[i];
                if side == 1 {
                    assert(targets@ =~= fall_slide_offsets());
                    assert(!forced(d3, p, targets@[i]));
                } else {
                    assert(targets@[0] == fall_slide_offsets()[0]);
                    assert(targets@[1] == fall_slide_offsets()[2]);
                    assert(targets@[2] == fall_slide_offsets()[1]);
                    assert(targets@[3] == fall_slide_offsets()[4]);
                    assert(targets@[4] == fall_slide_offsets()[3]);
                    assert(!forced(d3, p, targets@[0]));
                    assert(!forced(d3, p, targets@[1]));
                    assert(!forced(d3, p, targets@[2]));
                    assert(!forced(d3, p, targets@[3]));
                    assert(!forced(d3, p, targets@[4]));
                }
            }
        } else {
            let wi = choose|i: int|
                0 <= i < targets@.len() && in32(p.x + (#[trigger] targets@[i]).x) && in32(
                    p.y + targets@[i].y,
                ) && swap_effect(d3, *data, p, near(p, targets@[i].x as int, targets@[i].y as int))
                    && (forall|j: int| 0 <= j < i ==> !forced(d3, p, #[trigger] targets@[j]));
            assert(data.at(p.x as int, p.y as int) != old(data).at(p.x as int, p.y as int));
            // the tiers sit at the same indices in both mirror orders, so
            // every candidate of an earlier tier was refused before the
            // winner
            assert forall|j: int|
                0 <= j < fall_slide_offsets().len() && fall_slide_rank(j) < fall_slide_rank(wi) implies !forced(
                d3,
                p,
                #[trigger] fall_slide_offsets()[j],
            ) by {
                if side == 1 {
                    assert(!forced(d3, p, targets@[j]));
                } else {
                    if j == 0 {
                        assert(!forced(d3, p, targets@[0]));
                    }
                    else if j == 1 {
                        assert(!forced(d3, p, targets@[2]));
                    }
                    else if j == 2 {
                        assert(!forced(d3, p, targets@[1]));
                    }
                    else if j == 3 {
                        assert(!forced(d3, p, targets@[4]));
                    }
                    else {
                        assert(!forced(d3, p, targets@[3]));
                    }
                }
            }
            if side == 1 {
                assert(targets@ =~= fall_slide_offsets());
                assert(targets@[wi] == fall_slide_offsets()[wi]);
            } else {
                assert(targets@[0] == fall_slide_offsets()[0]);
                assert(targets@[1] == fall_slide_offsets()[2]);
                assert(targets@[2] == fall_slide_offsets()[1]);
                assert(targets@[3] == fall_slide_offsets()[4]);
                assert(targets@[4] == fall_slide_offsets()[3]);
            }
        }
        assert(within2(p, p));
        assert(skip@.contains(key_at(p.x as int, p.y as int)));
        assert(pt_at(p.x as int, p.y as int) == p);
        assert forall|i: int|
            d0.pending().len() <= i < data.pending().len() implies near_visited(
            #[trigger] data.pending()[i],
            skip@,
        ) by {
            if i < d1.pending().len() {
                assert(data.pending()[i] == d1.pending()[i]);
                lemma_near_visited_mono(data.pending()[i], s1, skip@);
            } else if i < d2.pending().len() {
                assert(data.pending()[i] == d2.pending()[i]);
                lemma_near_visited_mono(data.pending()[i], s2, skip@);
            } else if i < d3.pending().len() {
                assert(data.pending()[i] == d3.pending()[i]);
                lemma_near_visited_mono(data.pending()[i], s3, skip@);
            } else if i < d4.pending().len() {
                assert(data.pending()[i] == d4.pending()[i]);
                assert(within2(p, data.pending()[i]));
            } else {
                assert(data.pending()[i] == p);
            }
        }
        assert(tick_safe(d0, d3));
    }
}

/// Honey: resolve the cell below first, then take the first swap that
/// succeeds out of straight down and the two falling diagonals, mirror
/// order picked by a coin flip — the viscous subset of the water
/// sequence, with no level slide. In every outcome the cell stays
/// scheduled; it stays put only when no candidate was owed success.
fn honey_update(
    data: &mut CellData,
    skip: &mut std::collections::HashSet<u64>,
    p: Point,
    fuel: usize,
)
    requires
        old(data).wf(),
        fuel >= 1,
        old(data).at(p.x as int, p.y as int).kind == CellKind::Honey,
        old(data).at(p.x as int, p.y as int).swapped == false,
        interior(p),
        old(skip)@.contains(key_at(p.x as int, p.y as int)),
    ensures
        final(data).wf(),
        tick_safe(*old(data), *final(data)),
        forall|i: int|
            0 <= i < old(data).pending().len() ==> final(data).pending()[i] == old(data).pending()[i],
        final(data).pending().len() >= old(data).pending().len(),
        old(skip)@.subset_of(final(skip)@),
        forall|i: int|
            old(data).pending().len() <= i < final(data).pending().len() ==> near_visited(
                #[trigger] final(data).pending()[i],
                final(skip)@,
            ),
        final(data).pending().contains(p),
        // the pre-updated neighbours are visited, given fuel for the
        // recursion
        fuel >= 2 ==> final(skip)@.contains(key_at(p.x as int, p.y as int - 1)),
        wakes_changes(*old(data), *final(data)),
        marks_pending(*final(data), final(skip)@.difference(old(skip)@)),
        final(data).at(p.x as int, p.y as int) == old(data).at(p.x as int, p.y as int)
            ==> forall|i: int|
            0 <= i < fall_tumble_offsets().len() ==> !forced(
                *final(data),
                p,
                #[trigger] fall_tumble_offsets()[i],
            ),
        exists|mid: CellData|
            #[trigger] tick_safe(*old(data), mid) && (same_cells(mid, *final(data)) || (
            exists|i: int|
                0 <= i < fall_tumble_offsets().len() && in32(
                    p.x + (#[trigger] fall_tumble_offsets()[i]).x,
                ) && in32(p.y + fall_tumble_offsets()[i].y) && swap_effect(
                    mid,
                    *final(data),
                    p,
                    near(p, fall_tumble_offsets()[i].x as int, fall_tumble_offsets()[i].y as int),
                ) && (forall|j: int|
                    0 <= j < fall_tumble_offsets().len() && fall_tumble_rank(j) < fall_tumble_rank(i) ==> !forced(
                        mid,
                        p,
                        #[trigger] fall_tumble_offsets()[j],
                    )))),
    decreases fuel, 0int,
{
    let ghost d0 = *data;
    let ghost s0 = skip@;
    update_cell(data, skip, p.add(crate::point::down()), fuel - 1);
    let ghost d1 = *data;
    let ghost s1 = skip@;

    let pref = random_pref();
    let side: i32 = if pref {
        1
    } else {
        -1
    };
    let targets = fall_tumble(side);
    proof {
        assert(small_offsets(targets@));
        assert(d1.at(p.x as int, p.y as int).kind != CellKind::Bedrock);
    }
    let moved = data.multi_try_swap(p, &targets);
    proof {
        lemma_tick_safe_trans(d0, d1, *data);
        lemma_wakes_trans(d0, d1, *data);
        lemma_marks_pending_evolve(d1, *data, s1.difference(s0));
    }
    let ghost d2 = *data;
    if !moved {
        data.awaken(p);
        proof {
            lemma_tick_safe_same_kinds(d2, *data);
            lemma_tick_safe_trans(d0, d2, *data);
            lemma_wakes_same_kinds(d2, *data);
            lemma_wakes_trans(d0, d2, *data);
            lemma_marks_pending_evolve(d2, *data, s1.difference(s0));
            assert(data.pending()[d2.pending().len() as int] == p);
        }
    } else {
        proof {
            assert(data.pending().contains(near(p, 0, 0)));
            assert(near(p, 0, 0) == p);
        }
    }
    proof {
        assert(skip@.difference(s0) =~= s1.difference(s0));
        if !moved {
            assert(same_cells(d1, *data));
            assert forall|i: int| 0 <= i < fall_tumble_offsets().len() implies !forced(
                *data,
                p,
                #[trigger] fall_tumble_offsets()[i],
            ) by {
                if side == 1 {
                    assert(targets@ =~= fall_tumble_offsets());
                    assert(!forced(d1, p, targets@[i]));
                } else {
                    assert(targets@[0] == fall_tumble_offsets()[0]);
                    assert(targets@[1] == fall_tumble_offsets()[2]);
                    assert(targets@[2] == fall_tumble_offsets()[1]);
                    assert(!forced(d1, p, targets@[0]));
                    assert(!forced(d1, p, targets@[1]));
                    assert(!forced(d1, p, targets@[2]));
                }
            }
        } else {
            let wi = choose|i: int|
                0 <= i < targets@.len() && in32(p.x + (#[trigger] targets@[i]).x) && in32(
                    p.y + targets@[i].y,
                ) && swap_effect(d1, *data, p, near(p, targets@[i].x as int, targets@[i].y as int))
                    && (forall|j: int| 0 <= j < i ==> !forced(d1, p, #[trigger] targets@[j]));
            assert(data.at(p.x as int, p.y as int) != old(data).at(p.x as int, p.y as int));
            // the tiers sit at the same indices in both mirror orders, so
            // every candidate of an earlier tier was refused before the
            // winner
            assert forall|j: int|
                0 <= j < fall_tumble_offsets().len() && fall_tumble_rank(j) < fall_tumble_rank(wi) implies !forced(
                d1,
                p,
                #[trigger] fall_tumble_offsets()[j],
            ) by {
                if side == 1 {
                    assert(!forced(d1, p, targets@[j]));
                } else {
                    if j == 0 {
                        assert(!forced(d1, p, targets@[0]));
                    }
                    else if j == 1 {
                        assert(!forced(d1, p, targets@[2]));
                    }
                    else {
                        assert(!forced(d1, p, targets@[1]));
                    }
                }
            }
            if side == 1 {
                assert(targets@ =~= fall_tumble_offsets());
                assert(targets@[wi] == fall_tumble_offsets()[wi]);
            } else {
                assert(targets@[0] == fall_tumble_offsets()[0]);
                assert(targets@[1] == fall_tumble_offsets()[2]);
                assert(targets@[2] == fall_tumble_offsets()[1]);
            }
        }
        assert(within2(p, p));
        assert(skip@.contains(key_at(p.x as int, p.y as int)));
        assert(pt_at(p.x as int, p.y as int) == p);
        assert forall|i: int|
            d0.pending().len() <= i < data.pending().len() implies near_visited(
            #[trigger] data.pending()[i],
            skip@,
        ) by {
            if i < d1.pending().len() {
                assert(data.pending()[i] == d1.pending()[i]);
                lemma_near_visited_mono(data.pending()[i], s1, skip@);
            } else if i < d2.pending().len() {
                assert(data.pending()[i] == d2.pending()[i]);
                assert(within2(p, data.pending()[i]));
            } else {
                assert(data.pending()[i] == p);
            }
        }
        assert(tick_safe(d0, d1));
    }
}

/// Sand: resolve the cell below first, then fall straight down or tumble
/// to a falling diagonal, mirror order picked by a coin flip. In every
/// outcome the cell stays scheduled; it stays put only when no candidate
/// was owed success.
fn sand_update(
    data: &mut CellData,
    skip: &mut std::collections::HashSet<u64>,
    p: Point,
    fuel: usize,
)
    requires
        old(data).wf(),
        fuel >= 1,
        old(data).at(p.x as int, p.y as int).kind == CellKind::Sand,
        old(data).at(p.x as int, p.y as int).swapped == false,
        interior(p),
        old(skip)@.contains(key_at(p.x as int, p.y as int)),
    ensures
        final(data).wf(),
        tick_safe(*old(data), *final(data)),
        forall|i: int|
            0 <= i < old(data).pending().len() ==> final(data).pending()[i] == old(data).pending()[i],
        final(data).pending().len() >= old(data).pending().len(),
        old(skip)@.subset_of(final(skip)@),
        forall|i: int|
            old(data).pending().len() <= i < final(data).pending().len() ==> near_visited(
                #[trigger] final(data).pending()[i],
                final(skip)@,
            ),
        final(data).pending().contains(p),
        // the pre-updated neighbours are visited, given fuel for the
        // recursion
        fuel >= 2 ==> final(skip)@.contains(key_at(p.x as int, p.y as int - 1)),
        wakes_changes(*old(data), *final(data)),
        marks_pending(*final(data), final(skip)@.difference(old(skip)@)),
        final(data).at(p.x as int, p.y as int) == old(data).at(p.x as int, p.y as int)
            ==> forall|i: int|
            0 <= i < fall_tumble_offsets().len() ==> !forced(
                *final(data),
                p,
                #[trigger] fall_tumble_offsets()[i],
            ),
        exists|mid: CellData|
            #[trigger] tick_safe(*old(data), mid) && (same_cells(mid, *final(data)) || (
            exists|i: int|
                0 <= i < fall_tumble_offsets().len() && in32(
                    p.x + (#[trigger] fall_tumble_offsets()[i]).x,
                ) && in32(p.y + fall_tumble_offsets()[i].y) && swap_effect(
                    mid,
                    *final(data),
                    p,
                    near(p, fall_tumble_offsets()[i].x as int, fall_tumble_offsets()[i].y as int),
                ) && (forall|j: int|
                    0 <= j < fall_tumble_offsets().len() && fall_tumble_rank(j) < fall_tumble_rank(i) ==> !forced(
                        mid,
                        p,
                        #[trigger] fall_tumble_offsets()[j],
                    )))),
    decreases fuel, 0int,
{
    let ghost d0 = *data;
    let ghost s0 = skip@;
    update_cell(data, skip, p.add(crate::point::down()), fuel - 1);
    let ghost d1 = *data;
    let ghost s1 = skip@;

    let pref = random_pref();
    let side: i32 = if pref {
        1
    } else {
        -1
    };
    let targets = fall_tumble(side);
    proof {
        assert(small_offsets(targets@));
        assert(d1.at(p.x as int, p.y as int).kind != CellKind::Bedrock);
    }
    let moved = data.multi_try_swap(p, &targets);
    proof {
        lemma_tick_safe_trans(d0, d1, *data);
        lemma_wakes_trans(d0, d1, *data);
        lemma_marks_pending_evolve(d1, *data, s1.difference(s0));
    }
    let ghost d2 = *data;
    if !moved {
        data.awaken(p);
        proof {
            lemma_tick_safe_same_kinds(d2, *data);
            lemma_tick_safe_trans(d0, d2, *data);
            lemma_wakes_same_kinds(d2, *data);
            lemma_wakes_trans(d0, d2, *data);
            lemma_marks_pending_evolve(d2, *data, s1.difference(s0));
            assert(data.pending()[d2.pending().len() as int] == p);
        }
    } else {
        proof {
            assert(data.pending().contains(near(p, 0, 0)));
            assert(near(p, 0, 0) == p);
        }
    }
    proof {
        assert(skip@.difference(s0) =~= s1.difference(s0));
        if !moved {
            assert(same_cells(d1, *data));
            assert forall|i: int| 0 <= i < fall_tumble_offsets().len() implies !forced(
                *data,
                p,
                #[trigger] fall_tumble_offsets()[i],
            ) by {
                if side == 1 {
                    assert(targets@ =~= fall_tumble_offsets());
                    assert(!forced(d1, p, targets@[i]));
                } else {
                    assert(targets@[0] == fall_tumble_offsets()[0]);
                    assert(targets@[1] == fall_tumble_offsets()[2]);
                    assert(targets@[2] == fall_tumble_offsets()[1]);
                    assert(!forced(d1, p, targets@[0]));
                    assert(!forced(d1, p, targets@[1]));
                    assert(!forced(d1, p, targets@[2]));
                }
            }
        } else {
            let wi = choose|i: int|
                0 <= i < targets@.len() && in32(p.x + (#[trigger] targets@[i]).x) && in32(
                    p.y + targets@[i].y,
                ) && swap_effect(d1, *data, p, near(p, targets@[i].x as int, targets@[i].y as int))
                    && (forall|j: int| 0 <= j < i ==> !forced(d1, p, #[trigger] targets@[j]));
            assert(data.at(p.x as int, p.y as int) != old(data).at(p.x as int, p.y as int));
            // the tiers sit at the same indices in both mirror orders, so
            // every candidate of an earlier tier was refused before the
            // winner
            assert forall|j: int|
                0 <= j < fall_tumble_offsets().len() && fall_tumble_rank(j) < fall_tumble_rank(wi) implies !forced(
                d1,
                p,
                #[trigger] fall_tumble_offsets()[j],
            ) by {
                if side == 1 {
                    assert(!forced(d1, p, targets@[j]));
                } else {
                    if j == 0 {
                        assert(!forced(d1, p, targets@[0]));
                    }
                    else if j == 1 {
                        assert(!forced(d1, p, targets@[2]));
                    }
                    else {
                        assert(!forced(d1, p, targets@[1]));
                    }
                }
            }
            if side == 1 {
                assert(targets@ =~= fall_tumble_offsets());
                assert(targets@[wi] == fall_tumble_offsets()[wi]);
            } else {
                assert(targets@[0] == fall_tumble_offsets()[0]);
                assert(targets@[1] == fall_tumble_offsets()[2]);
                assert(targets@[2] == fall_tumble_offsets()[1]);
            }
        }
        assert(within2(p, p));
        assert(skip@.contains(key_at(p.x as int, p.y as int)));
        assert(pt_at(p.x as int, p.y as int) == p);
        assert forall|i: int|
            d0.pending().len() <= i < data.pending().len() implies near_visited(
            #[trigger] data.pending()[i],
            skip@,
        ) by {
            if i < d1.pending().len() {
                assert(data.pending()[i] == d1.pending()[i]);
                lemma_near_visited_mono(data.pending()[i], s1, skip@);
            } else if i < d2.pending().len() {
                assert(data.pending()[i] == d2.pending()[i]);
                assert(within2(p, data.pending()[i]));
            } else {
                assert(data.pending()[i] == p);
            }
        }
        assert(tick_safe(d0, d1));
    }
}

/// Pink sand: no pre-update and no straight fall — only a diagonal
/// tumble, mirror order picked by a coin flip, and no rescheduling when
/// blocked; the intentionally sluggish variant. The rule does nothing
/// but tumble: either the world is untouched (and then neither tumble
/// was owed success) or the cell swapped into one falling diagonal.
fn pink_sand_update(
    data: &mut CellData,
    skip: &mut std::collections::HashSet<u64>,
    p: Point,
    fuel: usize,
)
    requires
        old(data).wf(),
        fuel >= 1,
        old(data).at(p.x as int, p.y as int).kind == CellKind::PinkSand,
        old(data).at(p.x as int, p.y as int).swapped == false,
        interior(p),
        old(skip)@.contains(key_at(p.x as int, p.y as int)),
    ensures
        final(data).wf(),
        tick_safe(*old(data), *final(data)),
        forall|i: int|
            0 <= i < old(data).pending().len() ==> final(data).pending()[i] == old(data).pending()[i],
        final(data).pending().len() >= old(data).pending().len(),
        old(skip)@.subset_of(final(skip)@),
        forall|i: int|
            old(data).pending().len() <= i < final(data).pending().len() ==> near_visited(
                #[trigger] final(data).pending()[i],
                final(skip)@,
            ),
        wakes_changes(*old(data), *final(data)),
        marks_pending(*final(data), final(skip)@.difference(old(skip)@)),
        (*final(data) == *old(data)) || (exists|dx: int|
            (dx == 1 || dx == -1) && swap_effect(
                *old(data),
                *final(data),
                p,
                #[trigger] near(p, dx, -1),
            )),
        final(data).at(p.x as int, p.y as int) == old(data).at(p.x as int, p.y as int)
            ==> forall|i: int|
            0 <= i < tumble_offsets().len() ==> !forced(
                *final(data),
                p,
                #[trigger] tumble_offsets()[i],
            ),
    decreases fuel, 0int,
{
    let pref = random_pref();
    let side: i32 = if pref {
        1
    } else {
        -1
    };
    let targets = tumble(side);
    proof {
        assert(small_offsets(targets@));
    }
    let moved = data.multi_try_swap(p, &targets);
    proof {
        lemma_marks_pending_none(*data, skip@.difference(skip@));
        if moved {
            let wi = choose|i: int|
                0 <= i < targets@.len() && in32(p.x + (#[trigger] targets@[i]).x) && in32(
                    p.y + targets@[i].y,
                ) && swap_effect(
                    *old(data),
                    *data,
                    p,
                    near(p, targets@[i].x as int, targets@[i].y as int),
                );
            assert(targets@[wi].x == 1 || targets@[wi].x == -1);
            assert(targets@[wi].y == -1);
            assert(data.at(p.x as int, p.y as int) != old(data).at(p.x as int, p.y as int));
        } else {
            assert forall|i: int| 0 <= i < tumble_offsets().len() implies !forced(
                *data,
                p,
                #[trigger] tumble_offsets()[i],
            ) by {
                if side == 1 {
                    assert(targets@ =~= tumble_offsets());
                    assert(!forced(*old(data), p, targets@[i]));
                } else {
                    assert(targets@[0] == tumble_offsets()[1]);
                    assert(targets@[1] == tumble_offsets()[0]);
                    assert(!forced(*old(data), p, targets@[0]));
                    assert(!forced(*old(data), p, targets@[1]));
                }
            }
        }
        assert(skip@.contains(key_at(p.x as int, p.y as int)));
        assert(pt_at(p.x as int, p.y as int) == p);
        assert forall|i: int|
            old(data).pending().len() <= i < data.pending().len() implies near_visited(
            #[trigger] data.pending()[i],
            skip@,
        ) by {
            assert(within2(p, data.pending()[i]));
        }
    }
}

/// Purple sand: resolve the cell above first, then tumble to a falling
/// diagonal or, failing that, push straight up — denser material beneath
/// can displace it upward. In every outcome the cell stays scheduled; it
/// stays put only when no candidate was owed success.
fn purple_sand_update(
    data: &mut CellData,
    skip: &mut std::collections::HashSet<u64>,
    p: Point,
    fuel: usize,
)
    requires
        old(data).wf(),
        fuel >= 1,
        old(data).at(p.x as int, p.y as int).kind == CellKind::PurpleSand,
        old(data).at(p.x as int, p.y as int).swapped == false,
        interior(p),
        old(skip)@.contains(key_at(p.x as int, p.y as int)),
    ensures
        final(data).wf(),
        tick_safe(*old(data), *final(data)),
        forall|i: int|
            0 <= i < old(data).pending().len() ==> final(data).pending()[i] == old(data).pending()[i],
        final(data).pending().len() >= old(data).pending().len(),
        old(skip)@.subset_of(final(skip)@),
        forall|i: int|
            old(data).pending().len() <= i < final(data).pending().len() ==> near_visited(
                #[trigger] final(data).pending()[i],
                final(skip)@,
            ),
        final(data).pending().contains(p),
        // the pre-updated neighbour is visited, given fuel for the
        // recursion
        fuel >= 2 ==> final(skip)@.contains(key_at(p.x as int, p.y as int + 1)),
        wakes_changes(*old(data), *final(data)),
        marks_pending(*final(data), final(skip)@.difference(old(skip)@)),
        final(data).at(p.x as int, p.y as int) == old(data).at(p.x as int, p.y as int)
            ==> forall|i: int|
            0 <= i < tumble_rise_offsets().len() ==> !forced(
                *final(data),
                p,
                #[trigger] tumble_rise_offsets()[i],
            ),
        exists|mid: CellData|
            #[trigger] tick_safe(*old(data), mid) && (same_cells(mid, *final(data)) || (
            exists|i: int|
                0 <= i < tumble_rise_offsets().len() && in32(
                    p.x + (#[trigger] tumble_rise_offsets()[i]).x,
                ) && in32(p.y + tumble_rise_offsets()[i].y) && swap_effect(
                    mid,
                    *final(data),
                    p,
                    near(p, tumble_rise_offsets()[i].x as int, tumble_rise_offsets()[i].y as int),
                ) && (forall|j: int|
                    0 <= j < tumble_rise_offsets().len() && tumble_rise_rank(j) < tumble_rise_rank(i) ==> !forced(
                        mid,
                        p,
                        #[trigger] tumble_rise_offsets()[j],
                    )))),
    decreases fuel, 0int,
{
    let ghost d0 = *data;
    let ghost s0 = skip@;
    update_cell(data, skip, p.add(crate::point::up()), fuel - 1);
    let ghost d1 = *data;
    let ghost s1 = skip@;

    let pref = random_pref();
    let side: i32 = if pref {
        1
    } else {
        -1
    };
    let targets = tumble_rise(side);
    proof {
        assert(small_offsets(targets@));
        assert(d1.at(p.x as int, p.y as int).kind != CellKind::Bedrock);
    }
    let moved = data.multi_try_swap(p, &targets);
    proof {
        lemma_tick_safe_trans(d0, d1, *data);
        lemma_wakes_trans(d0, d1, *data);
        lemma_marks_pending_evolve(d1, *data, s1.difference(s0));
    }
    let ghost d2 = *data;
    if !moved {
        data.awaken(p);
        proof {
            lemma_tick_safe_same_kinds(d2, *data);
            lemma_tick_safe_trans(d0, d2, *data);
            lemma_wakes_same_kinds(d2, *data);
            lemma_wakes_trans(d0, d2, *data);
            lemma_marks_pending_evolve(d2, *data, s1.difference(s0));
            assert(data.pending()[d2.pending().len() as int] == p);
        }
    } else {
        proof {
            assert(data.pending().contains(near(p, 0, 0)));
            assert(near(p, 0, 0) == p);
        }
    }
    proof {
        assert(skip@.difference(s0) =~= s1.difference(s0));
        if !moved {
            assert(same_cells(d1, *data));
            assert forall|i: int| 0 <= i < tumble_rise_offsets().len() implies !forced(
                *data,
                p,
                #[trigger] tumble_rise_offsets()[i],
            ) by {
                if side == 1 {
                    assert(targets@ =~= tumble_rise_offsets());
                    assert(!forced(d1, p, targets@[i]));
                } else {
                    assert(targets@[0] == tumble_rise_offsets()[1]);
                    assert(targets@[1] == tumble_rise_offsets()[0]);
                    assert(targets@[2] == tumble_rise_offsets()[2]);
                    assert(!forced(d1, p, targets@[0]));
                    assert(!forced(d1, p, targets@[1]));
                    assert(!forced(d1, p, targets@[2]));
                }
            }
        } else {
            let wi = choose|i: int|
                0 <= i < targets@.len() && in32(p.x + (#[trigger] targets@[i]).x) && in32(
                    p.y + targets@[i].y,
                ) && swap_effect(d1, *data, p, near(p, targets@[i].x as int, targets@[i].y as int))
                    && (forall|j: int| 0 <= j < i ==> !forced(d1, p, #[trigger] targets@[j]));
            assert(data.at(p.x as int, p.y as int) != old(data).at(p.x as int, p.y as int));
            // the tiers sit at the same indices in both mirror orders, so
            // every candidate of an earlier tier was refused before the
            // winner
            assert forall|j: int|
                0 <= j < tumble_rise_offsets().len() && tumble_rise_rank(j) < tumble_rise_rank(wi) implies !forced(
                d1,
                p,
                #[trigger] tumble_rise_offsets()[j],
            ) by {
                if side == 1 {
                    assert(!forced(d1, p, targets@[j]));
                } else {
                    if j == 0 {
                        assert(!forced(d1, p, targets@[1]));
                    }
                    else if j == 1 {
                        assert(!forced(d1, p, targets@[0]));
                    }
                    else {
                        assert(!forced(d1, p, targets@[2]));
                    }
                }
            }
            if side == 1 {
                assert(targets@ =~= tumble_rise_offsets());
                assert(targets@[wi] == tumble_rise_offsets()[wi]);
            } else {
                assert(targets@[0] == tumble_rise_offsets()[1]);
                assert(targets@[1] == tumble_rise_offsets()[0]);
                assert(targets@[2] == tumble_rise_offsets()[2]);
            }
        }
        assert(within2(p, p));
        assert(skip@.contains(key_at(p.x as int, p.y as int)));
        assert(pt_at(p.x as int, p.y as int) == p);
        assert forall|i: int|
            d0.pending().len() <= i < data.pending().len() implies near_visited(
            #[trigger] data.pending()[i],
            skip@,
        ) by {
            if i < d1.pending().len() {
                assert(data.pending()[i] == d1.pending()[i]);
                lemma_near_visited_mono(data.pending()[i], s1, skip@);
            } else if i < d2.pending().len() {
                assert(data.pending()[i] == d2.pending()[i]);
                assert(within2(p, data.pending()[i]));
            } else {
                assert(data.pending()[i] == p);
            }
        }
        assert(tick_safe(d0, d1));
    }
}

/// Blue sand: like sand, but after both tumble directions it finally
/// attempts a straight rise before giving up. In every outcome the cell
/// stays scheduled; it stays put only when no candidate was owed
/// success.
fn blue_sand_update(
    data: &mut CellData,
    skip: &mut std::collections::HashSet<u64>,
    p: Point,
    fuel: usize,
)
    requires
        old(data).wf(),
        fuel >= 1,
        old(data).at(p.x as int, p.y as int).kind == CellKind::BlueSand,
        old(data).at(p.x as int, p.y as int).swapped == false,
        interior(p),
        old(skip)@.contains(key_at(p.x as int, p.y as int)),
    ensures
        final(data).wf(),
        tick_safe(*old(data), *final(data)),
        forall|i: int|
            0 <= i < old(data).pending().len() ==> final(data).pending()[i] == old(data).pending()[i],
        final(data).pending().len() >= old(data).pending().len(),
        old(skip)@.subset_of(final(skip)@),
        forall|i: int|
            old(data).pending().len() <= i < final(data).pending().len() ==> near_visited(
                #[trigger] final(data).pending()[i],
                final(skip)@,
            ),
        final(data).pending().contains(p),
        // the pre-updated neighbours are visited, given fuel for the
        // recursion
        fuel >= 2 ==> final(skip)@.contains(key_at(p.x as int, p.y as int - 1)),
        wakes_changes(*old(data), *final(data)),
        marks_pending(*final(data), final(skip)@.difference(old(skip)@)),
        final(data).at(p.x as int, p.y as int) == old(data).at(p.x as int, p.y as int)
            ==> forall|i: int|
            0 <= i < fall_tumble_rise_offsets().len() ==> !forced(
                *final(data),
                p,
                #[trigger] fall_tumble_rise_offsets()[i],
            ),
        exists|mid: CellData|
            #[trigger] tick_safe(*old(data), mid) && (same_cells(mid, *final(data)) || (
            exists|i: int|
                0 <= i < fall_tumble_rise_offsets().len() && in32(
                    p.x + (#[trigger] fall_tumble_rise_offsets()[i]).x,
                ) && in32(p.y + fall_tumble_rise_offsets()[i].y) && swap_effect(
                    mid,
                    *final(data),
                    p,
                    near(p, fall_tumble_rise_offsets()[i].x as int, fall_tumble_rise_offsets()[i].y as int),
                ) && (forall|j: int|
                    0 <= j < fall_tumble_rise_offsets().len() && fall_tumble_rise_rank(j) < fall_tumble_rise_rank(i) ==> !forced(
                        mid,
                        p,
                        #[trigger] fall_tumble_rise_offsets()[j],
                    )))),
    decreases fuel, 0int,
{
    let ghost d0 = *data;
    let ghost s0 = skip@;
    update_cell(data, skip, p.add(crate::point::down()), fuel - 1);
    let ghost d1 = *data;
    let ghost s1 = skip@;

    let pref = random_pref();
    let side: i32 = if pref {
        1
    } else {
        -1
    };
    let targets = fall_tumble_rise(side);
    proof {
        assert(small_offsets(targets@));
        assert(d1.at(p.x as int, p.y as int).kind != CellKind::Bedrock);
    }
    let moved = data.multi_try_swap(p, &targets);
    proof {
        lemma_tick_safe_trans(d0, d1, *data);
        lemma_wakes_trans(d0, d1, *data);
        lemma_marks_pending_evolve(d1, *data, s1.difference(s0));
    }
    let ghost d2 = *data;
    if !moved {
        data.awaken(p);
        proof {
            lemma_tick_safe_same_kinds(d2, *data);
            lemma_tick_safe_trans(d0, d2, *data);
            lemma_wakes_same_kinds(d2, *data);
            lemma_wakes_trans(d0, d2, *data);
            lemma_marks_pending_evolve(d2, *data, s1.difference(s0));
            assert(data.pending()[d2.pending().len() as int] == p);
        }
    } else {
        proof {
            assert(data.pending().contains(near(p, 0, 0)));
            assert(near(p, 0, 0) == p);
        }
    }
    proof {
        assert(skip@.difference(s0) =~= s1.difference(s0));
        if !moved {
            assert(same_cells(d1, *data));
            assert forall|i: int| 0 <= i < fall_tumble_rise_offsets().len() implies !forced(
                *data,
                p,
                #[trigger] fall_tumble_rise_offsets()[i],
            ) by {
                if side == 1 {
                    assert(targets@ =~= fall_tumble_rise_offsets());
                    assert(!forced(d1, p, targets@[i]));
                } else {
                    assert(targets@[0] == fall_tumble_rise_offsets()[0]);
                    assert(targets@[1] == fall_tumble_rise_offsets()[2]);
                    assert(targets@[2] == fall_tumble_rise_offsets()[1]);
                    assert(targets@[3] == fall_tumble_rise_offsets()[3]);
                    assert(!forced(d1, p, targets@[0]));
                    assert(!forced(d1, p, targets@[1]));
                    assert(!forced(d1, p, targets@[2]));
                    assert(!forced(d1, p, targets@[3]));
                }
            }
        } else {
            let wi = choose|i: int|
                0 <= i < targets@.len() && in32(p.x + (#[trigger] targets@[i]).x) && in32(
                    p.y + targets@[i].y,
                ) && swap_effect(d1, *data, p, near(p, targets@[i].x as int, targets@[i].y as int))
                    && (forall|j: int| 0 <= j < i ==> !forced(d1, p, #[trigger] targets@[j]));
            assert(data.at(p.x as int, p.y as int) != old(data).at(p.x as int, p.y as int));
            // the tiers sit at the same indices in both mirror orders, so
            // every candidate of an earlier tier was refused before the
            // winner
            assert forall|j: int|
                0 <= j < fall_tumble_rise_offsets().len() && fall_tumble_rise_rank(j) < fall_tumble_rise_rank(wi) implies !forced(
                d1,
                p,
                #[trigger] fall_tumble_rise_offsets()[j],
            ) by {
                if side == 1 {
                    assert(!forced(d1, p, targets@[j]));
                } else {
                    if j == 0 {
                        assert(!forced(d1, p, targets@[0]));
                    }
                    else if j == 1 {
                        assert(!forced(d1, p, targets@[2]));
                    }
                    else if j == 2 {
                        assert(!forced(d1, p, targets@[1]));
                    }
                    else {
                        assert(!forced(d1, p, targets@[3]));
                    }
                }
            }
            if side == 1 {
                assert(targets@ =~= fall_tumble_rise_offsets());
                assert(targets@[wi] == fall_tumble_rise_offsets()[wi]);
            } else {
                assert(targets@[0] == fall_tumble_rise_offsets()[0]);
                assert(targets@[1] == fall_tumble_rise_offsets()[2]);
                assert(targets@[2] == fall_tumble_rise_offsets()[1]);
                assert(targets@[3] == fall_tumble_rise_offsets()[3]);
            }
        }
        assert(within2(p, p));
        assert(skip@.contains(key_at(p.x as int, p.y as int)));
        assert(pt_at(p.x as int, p.y as int) == p);
        assert forall|i: int|
            d0.pending().len() <= i < data.pending().len() implies near_visited(
            #[trigger] data.pending()[i],
            skip@,
        ) by {
            if i < d1.pending().len() {
                assert(data.pending()[i] == d1.pending()[i]);
                lemma_near_visited_mono(data.pending()[i], s1, skip@);
            } else if i < d2.pending().len() {
                assert(data.pending()[i] == d2.pending()[i]);
                assert(within2(p, data.pending()[i]));
            } else {
                assert(data.pending()[i] == p);
            }
        }
        assert(tick_safe(d0, d1));
    }
}

/// Hydrogen: resolve the cells above and to both sides first, then draw
/// once from 1 to 10 to pick a candidate set — the rising diagonals and
/// the straight rise on 1 through 6, the level slides on 7 and 8, and
/// only as a last resort the falling slides on 9 and 10 — mirror order
/// picked by a coin flip. In every outcome the cell stays scheduled, and
/// the rule itself performs at most one swap at one of the eight
/// neighbours.
fn hydrogen_update(
    data: &mut CellData,
    skip: &mut std::collections::HashSet<u64>,
    p: Point,
    fuel: usize,
)
    requires
        old(data).wf(),
        fuel >= 1,
        old(data).at(p.x as int, p.y as int).kind == CellKind::Hydrogen,
        old(data).at(p.x as int, p.y as int).swapped == false,
        interior(p),
        old(skip)@.contains(key_at(p.x as int, p.y as int)),
    ensures
        final(data).wf(),
        tick_safe(*old(data), *final(data)),
        forall|i: int|
            0 <= i < old(data).pending().len() ==> final(data).pending()[i] == old(data).pending()[i],
        final(data).pending().len() >= old(data).pending().len(),
        old(skip)@.subset_of(final(skip)@),
        forall|i: int|
            old(data).pending().len() <= i < final(data).pending().len() ==> near_visited(
                #[trigger] final(data).pending()[i],
                final(skip)@,
            ),
        final(data).pending().contains(p),
        // the pre-updated neighbours are visited, given fuel for the
        // recursion
        fuel >= 2 ==> final(skip)@.contains(key_at(p.x as int, p.y as int + 1)),
        fuel >= 2 ==> final(skip)@.contains(key_at(p.x as int + 1, p.y as int)),
        fuel >= 2 ==> final(skip)@.contains(key_at(p.x as int - 1, p.y as int)),
        wakes_changes(*old(data), *final(data)),
        marks_pending(*final(data), final(skip)@.difference(old(skip)@)),
        exists|mid: CellData|
            #[trigger] tick_safe(*old(data), mid) && (same_cells(mid, *final(data)) || (
            exists|i: int|
                0 <= i < ring_offsets().len() && in32(
                    p.x + (#[trigger] ring_offsets()[i]).x,
                ) && in32(p.y + ring_offsets()[i].y) && swap_effect(
                    mid,
                    *final(data),
                    p,
                    near(p, ring_offsets()[i].x as int, ring_offsets()[i].y as int),
                ))),
    decreases fuel, 0int,
{
    let ghost d0 = *data;
    let ghost s0 = skip@;
    update_cell(data, skip, p.add(crate::point::up()), fuel - 1);
    let ghost d1 = *data;
    let ghost s1 = skip@;
    update_cell(data, skip, p.add(crate::point::right()), fuel - 1);
    proof {
        lemma_tick_safe_trans(d0, d1, *data);
        lemma_wakes_trans(d0, d1, *data);
        lemma_marks_pending_evolve(d1, *data, s1.difference(s0));
        lemma_marks_pending_union(*data, s1.difference(s0), skip@.difference(s1));
    }
    let ghost d2 = *data;
    let ghost s2 = skip@;
    let ghost m2 = s1.difference(s0).union(s2.difference(s1));
    update_cell(data, skip, p.add(crate::point::left()), fuel - 1);
    proof {
        lemma_tick_safe_trans(d0, d2, *data);
        lemma_wakes_trans(d0, d2, *data);
        lemma_marks_pending_evolve(d2, *data, m2);
        lemma_marks_pending_union(*data, m2, skip@.difference(s2));
    }
    let ghost d3 = *data;
    let ghost s3 = skip@;
    let ghost m3 = m2.union(s3.difference(s2));

    let pref = random_pref();
    let side: i32 = if pref {
        1
    } else {
        -1
    };
    let draw = random_in(1, 11);
    let targets = if draw <= 6 {
        rise_slide(side)
    } else if draw <= 8 {
        level_slide(side)
    } else {
        tumble(side)
    };
    proof {
        assert(small_offsets(targets@));
        assert(d3.at(p.x as int, p.y as int).kind != CellKind::Bedrock);
    }
    let moved = data.multi_try_swap(p, &targets);
    proof {
        lemma_tick_safe_trans(d0, d3, *data);
        lemma_wakes_trans(d0, d3, *data);
        lemma_marks_pending_evolve(d3, *data, m3);
    }
    let ghost d4 = *data;
    if !moved {
        data.awaken(p);
        proof {
            lemma_tick_safe_same_kinds(d4, *data);
            lemma_tick_safe_trans(d0, d4, *data);
            lemma_wakes_same_kinds(d4, *data);
            lemma_wakes_trans(d0, d4, *data);
            lemma_marks_pending_evolve(d4, *data, m3);
            assert(data.pending()[d4.pending().len() as int] == p);
        }
    } else {
        proof {
            assert(data.pending().contains(near(p, 0, 0)));
            assert(near(p, 0, 0) == p);
        }
    }
    proof {
        assert(skip@.difference(s0) =~= m3);
        if !moved {
            assert(same_cells(d3, *data));
        } else {
            let wi = choose|i: int|
                0 <= i < targets@.len() && in32(p.x + (#[trigger] targets@[i]).x) && in32(
                    p.y + targets@[i].y,
                ) && swap_effect(d3, *data, p, near(p, targets@[i].x as int, targets@[i].y as int));
            if draw <= 6 {
                if side == 1 {
                    assert(targets@[0] == ring_offsets()[7]);
                    assert(targets@[1] == ring_offsets()[5]);
                    assert(targets@[2] == ring_offsets()[6]);
                } else {
                    assert(targets@[0] == ring_offsets()[5]);
                    assert(targets@[1] == ring_offsets()[7]);
                    assert(targets@[2] == ring_offsets()[6]);
                }
            } else if draw <= 8 {
                if side == 1 {
                    assert(targets@[0] == ring_offsets()[4]);
                    assert(targets@[1] == ring_offsets()[3]);
                } else {
                    assert(targets@[0] == ring_offsets()[3]);
                    assert(targets@[1] == ring_offsets()[4]);
                }
            } else {
                if side == 1 {
                    assert(targets@[0] == ring_offsets()[2]);
                    assert(targets@[1] == ring_offsets()[0]);
                } else {
                    assert(targets@[0] == ring_offsets()[0]);
                    assert(targets@[1] == ring_offsets()[2]);
                }
            }
        }
        assert(within2(p, p));
        assert(skip@.contains(key_at(p.x as int, p.y as int)));
        assert(pt_at(p.x as int, p.y as int) == p);
        assert forall|i: int|
            d0.pending().len() <= i < data.pending().len() implies near_visited(
            #[trigger] data.pending()[i],
            skip@,
        ) by {
            if i < d1.pending().len() {
                assert(data.pending()[i] == d1.pending()[i]);
                lemma_near_visited_mono(data.pending()[i], s1, skip@);
            } else if i < d2.pending().len() {
                assert(data.pending()[i] == d2.pending()[i]);
                lemma_near_visited_mono(data.pending()[i], s2, skip@);
            } else if i < d3.pending().len() {
                assert(data.pending()[i] == d3.pending()[i]);
                lemma_near_visited_mono(data.pending()[i], s3, skip@);
            } else if i < d4.pending().len() {
                assert(data.pending()[i] == d4.pending()[i]);
                assert(within2(p, data.pending()[i]));
            } else {
                assert(data.pending()[i] == p);
            }
        }
        assert(tick_safe(d0, d3));
    }
}

} // verus!
