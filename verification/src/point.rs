//! Integer 2-D coordinates, used both as absolute world positions and as
//! relative offsets between neighbouring cells.

use vstd::prelude::*;

verus! {

/// An integer point on the grid. The same type serves as an absolute
/// coordinate and as a relative offset.
#[derive(Debug, Clone, Copy, PartialEq, Eq, Hash, Structural)]
pub struct Point {
    pub x: i32,
    pub y: i32,
}

impl Point {
    /// Component-wise vector addition.
    pub fn add(self, rhs: Point) -> (r: Point)
        requires
            i32::MIN <= self.x + rhs.x <= i32::MAX,
            i32::MIN <= self.y + rhs.y <= i32::MAX,
        ensures
            r.x == self.x + rhs.x,
            r.y == self.y + rhs.y,
    {
        Point { x: self.x + rhs.x, y: self.y + rhs.y }
    }

    /// Scalar multiplication of both components.
    pub fn scale(self, k: i32) -> (r: Point)
        requires
            i32::MIN <= k * self.x <= i32::MAX,
            i32::MIN <= k * self.y <= i32::MAX,
        ensures
            r.x == k * self.x,
            r.y == k * self.y,
    {
        Point { x: k * self.x, y: k * self.y }
    }

    /// Row-major index of the point inside a dense column of height
    /// `y_size`, for callers that copy a window of the world into a flat
    /// buffer.
    pub fn index(self, y_size: usize) -> (r: usize)
        requires
            self.x >= 0,
            self.y >= 0,
            self.x * y_size + self.y <= usize::MAX,
        ensures
            r == self.x * y_size + self.y,
    {
        (self.x as usize) * y_size + (self.y as usize)
    }

    /// The components as an unsigned pair; meaningful for non-negative
    /// coordinates only.
    pub fn utup(self) -> (r: (usize, usize))
        requires
            self.x >= 0,
            self.y >= 0,
        ensures
            r.0 == self.x,
            r.1 == self.y,
    {
        (self.x as usize, self.y as usize)
    }

    /// The components as a signed pair.
    pub fn tup(self) -> (r: (i32, i32))
        ensures
            r.0 == self.x,
            r.1 == self.y,
    {
        (self.x, self.y)
    }
}

/// Shorthand constructor.
pub fn point(x: i32, y: i32) -> (r: Point)
    ensures
        r.x == x,
        r.y == y,
{
    Point { x, y }
}

/// The single step downward — the direction gravity pulls.
pub fn down() -> (r: Point)
    ensures
        r == (Point { x: 0i32, y: -1i32 }),
{
    Point { x: 0, y: -1 }
}

/// The single step upward.
pub fn up() -> (r: Point)
    ensures
        r == (Point { x: 0i32, y: 1i32 }),
{
    Point { x: 0, y: 1 }
}

/// The single step to the left.
pub fn left() -> (r: Point)
    ensures
        r == (Point { x: -1i32, y: 0i32 }),
{
    Point { x: -1, y: 0 }
}

/// The single step to the right.
pub fn right() -> (r: Point)
    ensures
        r == (Point { x: 1i32, y: 0i32 }),
{
    Point { x: 1, y: 0 }
}

/// The candidate offsets of a free-flowing liquid, in preference order
/// with the rightward versions first: straight down, the two falling
/// diagonals, the two level slides. A coin flip may mirror left and
/// right; the set of candidates is the same either way.
pub open spec fn fall_slide_offsets() -> Seq<Point> {
    seq![
        (Point { x: 0i32, y: -1i32 }),
        (Point { x: 1i32, y: -1i32 }),
        (Point { x: -1i32, y: -1i32 }),
        (Point { x: 1i32, y: 0i32 }),
        (Point { x: -1i32, y: 0i32 }),
    ]
}

/// The candidate offsets of a falling granular material: straight down,
/// then the two falling diagonals (the tumble).
pub open spec fn fall_tumble_offsets() -> Seq<Point> {
    seq![(Point { x: 0i32, y: -1i32 }), (Point { x: 1i32, y: -1i32 }), (Point { x: -1i32, y: -1i32 })]
}

/// The two falling diagonals alone — the tumble without a straight fall.
pub open spec fn tumble_offsets() -> Seq<Point> {
    seq![(Point { x: 1i32, y: -1i32 }), (Point { x: -1i32, y: -1i32 })]
}

/// The tumble followed by a straight rise.
pub open spec fn tumble_rise_offsets() -> Seq<Point> {
    seq![(Point { x: 1i32, y: -1i32 }), (Point { x: -1i32, y: -1i32 }), (Point { x: 0i32, y: 1i32 })]
}

/// The straight fall, the tumble, and finally a straight rise.
pub open spec fn fall_tumble_rise_offsets() -> Seq<Point> {
    seq![
        (Point { x: 0i32, y: -1i32 }),
        (Point { x: 1i32, y: -1i32 }),
        (Point { x: -1i32, y: -1i32 }),
        (Point { x: 0i32, y: 1i32 }),
    ]
}

/// The preference tier of each `fall_slide_offsets` candidate: the
/// straight fall first, then the falling diagonals, then the level
/// slides. A coin flip reorders candidates only within a tier.
pub open spec fn fall_slide_rank(i: int) -> int {
    if i == 0 {
        0
    } else if i <= 2 {
        1
    } else {
        2
    }
}

/// The preference tier of each `fall_tumble_offsets` candidate: the
/// straight fall, then the tumble pair.
pub open spec fn fall_tumble_rank(i: int) -> int {
    if i == 0 {
        0
    } else {
        1
    }
}

/// The preference tier of each `tumble_rise_offsets` candidate: the
/// tumble pair, then the straight rise.
pub open spec fn tumble_rise_rank(i: int) -> int {
    if i <= 1 {
        0
    } else {
        1
    }
}

/// The preference tier of each `fall_tumble_rise_offsets` candidate: the
/// straight fall, then the tumble pair, and the rise only as a last
/// resort.
pub open spec fn fall_tumble_rise_rank(i: int) -> int {
    if i == 0 {
        0
    } else if i <= 2 {
        1
    } else {
        2
    }
}

/// All eight neighbouring offsets — the envelope of every rule's
/// movement.
pub open spec fn ring_offsets() -> Seq<Point> {
    seq![
        (Point { x: -1i32, y: -1i32 }),
        (Point { x: 0i32, y: -1i32 }),
        (Point { x: 1i32, y: -1i32 }),
        (Point { x: -1i32, y: 0i32 }),
        (Point { x: 1i32, y: 0i32 }),
        (Point { x: -1i32, y: 1i32 }),
        (Point { x: 0i32, y: 1i32 }),
        (Point { x: 1i32, y: 1i32 }),
    ]
}

/// The liquid candidate list, mirror-ordered by `side`.
pub fn fall_slide(side: i32) -> (v: Vec<Point>)
    requires
        side == 1 || side == -1,
    ensures
        side == 1 ==> v@ =~= fall_slide_offsets(),
        side == -1 ==> v@ =~= seq![
            (Point { x: 0i32, y: -1i32 }),
            (Point { x: -1i32, y: -1i32 }),
            (Point { x: 1i32, y: -1i32 }),
            (Point { x: -1i32, y: 0i32 }),
            (Point { x: 1i32, y: 0i32 }),
        ],
{
    let mut v: Vec<Point> = Vec::new();
    v.push(Point { x: 0i32, y: -1i32 });
    v.push(Point { x: side, y: -1i32 });
    v.push(Point { x: -side, y: -1i32 });
    v.push(Point { x: side, y: 0i32 });
    v.push(Point { x: -side, y: 0i32 });
    v
}

/// The granular candidate list, mirror-ordered by `side`.
pub fn fall_tumble(side: i32) -> (v: Vec<Point>)
    requires
        side == 1 || side == -1,
    ensures
        side == 1 ==> v@ =~= fall_tumble_offsets(),
        side == -1 ==> v@ =~= seq![
            (Point { x: 0i32, y: -1i32 }),
            (Point { x: -1i32, y: -1i32 }),
            (Point { x: 1i32, y: -1i32 }),
        ],
{
    let mut v: Vec<Point> = Vec::new();
    v.push(Point { x: 0i32, y: -1i32 });
    v.push(Point { x: side, y: -1i32 });
    v.push(Point { x: -side, y: -1i32 });
    v
}

/// The tumble alone, mirror-ordered by `side`.
pub fn tumble(side: i32) -> (v: Vec<Point>)
    requires
        side == 1 || side == -1,
    ensures
        side == 1 ==> v@ =~= tumble_offsets(),
        side == -1 ==> v@ =~= seq![(Point { x: -1i32, y: -1i32 }), (Point { x: 1i32, y: -1i32 })],
{
    let mut v: Vec<Point> = Vec::new();
    v.push(Point { x: side, y: -1i32 });
    v.push(Point { x: -side, y: -1i32 });
    v
}

/// The tumble followed by a straight rise, mirror-ordered by `side`.
pub fn tumble_rise(side: i32) -> (v: Vec<Point>)
    requires
        side == 1 || side == -1,
    ensures
        side == 1 ==> v@ =~= tumble_rise_offsets(),
        side == -1 ==> v@ =~= seq![
            (Point { x: -1i32, y: -1i32 }),
            (Point { x: 1i32, y: -1i32 }),
            (Point { x: 0i32, y: 1i32 }),
        ],
{
    let mut v: Vec<Point> = Vec::new();
    v.push(Point { x: side, y: -1i32 });
    v.push(Point { x: -side, y: -1i32 });
    v.push(Point { x: 0i32, y: 1i32 });
    v
}

/// The fall, the tumble, and a final rise, mirror-ordered by `side`.
pub fn fall_tumble_rise(side: i32) -> (v: Vec<Point>)
    requires
        side == 1 || side == -1,
    ensures
        side == 1 ==> v@ =~= fall_tumble_rise_offsets(),
        side == -1 ==> v@ =~= seq![
            (Point { x: 0i32, y: -1i32 }),
            (Point { x: -1i32, y: -1i32 }),
            (Point { x: 1i32, y: -1i32 }),
            (Point { x: 0i32, y: 1i32 }),
        ],
{
    let mut v: Vec<Point> = Vec::new();
    v.push(Point { x: 0i32, y: -1i32 });
    v.push(Point { x: side, y: -1i32 });
    v.push(Point { x: -side, y: -1i32 });
    v.push(Point { x: 0i32, y: 1i32 });
    v
}

/// The rising diagonals and the straight rise, mirror-ordered by `side`.
pub fn rise_slide(side: i32) -> (v: Vec<Point>)
    requires
        side == 1 || side == -1,
    ensures
        v@ =~= seq![
            (Point { x: side, y: 1i32 }),
            (Point { x: (0 - side) as i32, y: 1i32 }),
            (Point { x: 0i32, y: 1i32 }),
        ],
{
    let mut v: Vec<Point> = Vec::new();
    v.push(Point { x: side, y: 1i32 });
    v.push(Point { x: -side, y: 1i32 });
    v.push(Point { x: 0i32, y: 1i32 });
    v
}

/// The two level slides, mirror-ordered by `side`.
pub fn level_slide(side: i32) -> (v: Vec<Point>)
    requires
        side == 1 || side == -1,
    ensures
        v@ =~= seq![(Point { x: side, y: 0i32 }), (Point { x: (0 - side) as i32, y: 0i32 })],
{
    let mut v: Vec<Point> = Vec::new();
    v.push(Point { x: side, y: 0i32 });
    v.push(Point { x: -side, y: 0i32 });
    v
}

} // verus!
