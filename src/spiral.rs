//! The outward square spiral walk behind the Ulam spiral.
//!
//! Starting at a centre cell and first moving right, the walk turns
//! anticlockwise after legs of lengths 1, 1, 2, 2, 3, 3, ...

use crate::number_theory::{isqrt_spec, lemma_isqrt_bounds, lemma_isqrt_unique};
use vstd::prelude::*;

verus! {

/// A compass direction on the raster (`y` grows downwards).
#[derive(Clone, Copy, Debug, PartialEq, Eq, Structural)]
pub enum Direction {
    Up,
    Left,
    Right,
    Down,
}

/// The turning sense of a spiral.
#[derive(Clone, Copy, Debug, PartialEq, Eq, Structural)]
pub enum SpiralDirection {
    Clockwise,
    AntiClockwise,
}

/// The unit step of a direction.
pub open spec fn step_vector(d: Direction) -> (int, int) {
    match d {
        Direction::Up => (0, -1),
        Direction::Left => (-1, 0),
        Direction::Right => (1, 0),
        Direction::Down => (0, 1),
    }
}

/// A quarter turn of a vector; anticlockwise as seen on the raster.
pub open spec fn quarter_turn(v: (int, int), sense: SpiralDirection) -> (int, int) {
    match sense {
        SpiralDirection::Clockwise => (-v.1, v.0),
        SpiralDirection::AntiClockwise => (v.1, -v.0),
    }
}

/// The direction moves along the horizontal axis.
pub open spec fn is_horizontal(d: Direction) -> bool {
    step_vector(d).1 == 0
}

impl Direction {
    /// The direction after a quarter turn in the given sense.
    pub fn get_next(self, direction: SpiralDirection) -> (r: Self)
        ensures
            step_vector(r) == quarter_turn(step_vector(self), direction),
    {
        match (self, direction) {
            (Direction::Up, SpiralDirection::Clockwise) => Direction::Right,
            (Direction::Up, SpiralDirection::AntiClockwise) => Direction::Left,
            (Direction::Left, SpiralDirection::Clockwise) => Direction::Up,
            (Direction::Left, SpiralDirection::AntiClockwise) => Direction::Down,
            (Direction::Right, SpiralDirection::Clockwise) => Direction::Down,
            (Direction::Right, SpiralDirection::AntiClockwise) => Direction::Up,
            (Direction::Down, SpiralDirection::Clockwise) => Direction::Left,
            (Direction::Down, SpiralDirection::AntiClockwise) => Direction::Right,
        }
    }

    /// Both directions lie on the same axis.
    pub fn same_axis(self, direction: Self) -> (r: bool)
        ensures
            r == (is_horizontal(self) == is_horizontal(direction)),
    {
        !Self::different_axis(self, direction)
    }

    /// One direction is horizontal and the other vertical.
    pub fn different_axis(self, direction: Self) -> (r: bool)
        ensures
            r == (is_horizontal(self) != is_horizontal(direction)),
    {
        match (self, direction) {
            (Direction::Up, Direction::Up) => false,
            (Direction::Up, Direction::Left) => true,
            (Direction::Up, Direction::Right) => true,
            (Direction::Up, Direction::Down) => false,
            (Direction::Left, Direction::Up) => true,
            (Direction::Left, Direction::Left) => false,
            (Direction::Left, Direction::Right) => false,
            (Direction::Left, Direction::Down) => true,
            (Direction::Right, Direction::Up) => true,
            (Direction::Right, Direction::Left) => false,
            (Direction::Right, Direction::Right) => false,
            (Direction::Right, Direction::Down) => true,
            (Direction::Down, Direction::Up) => false,
            (Direction::Down, Direction::Left) => true,
            (Direction::Down, Direction::Right) => true,
            (Direction::Down, Direction::Down) => false,
        }
    }
}

/// The side of the square whose spiral `t` moves have entered.
pub open spec fn ring(t: nat) -> int {
    isqrt_spec(t) as int
}

/// Moves made since the square `ring(t)` squared was completed.
pub open spec fn ring_rest(t: nat) -> int {
    t - ring(t) * ring(t)
}

/// The offset from the centre after `t` moves of the spiral.
pub open spec fn spiral_offset(t: nat) -> (int, int) {
    let m = ring(t);
    let r = ring_rest(t);
    if m % 2 == 1 {
        if r < m {
            ((m + 1) / 2, (m - 1) / 2 - r)
        } else {
            ((m + 1) / 2 - (r - m), -(m + 1) / 2)
        }
    } else {
        if r < m {
            (-m / 2, -m / 2 + r)
        } else {
            (-m / 2 + (r - m), m / 2)
        }
    }
}

/// The `t`-th cell of the spiral around `(centre, centre)`, counting from zero.
pub open spec fn spiral_point(centre: int, t: nat) -> (int, int) {
    (centre + spiral_offset(t).0, centre + spiral_offset(t).1)
}

/// The direction of the leg that move `t` belongs to.
spec fn leg_direction(t: nat) -> Direction {
    let m = ring(t);
    let r = ring_rest(t);
    if m % 2 == 1 {
        if r < m {
            Direction::Up
        } else {
            Direction::Left
        }
    } else {
        if r < m {
            Direction::Down
        } else {
            Direction::Right
        }
    }
}

/// Moves already made on the current leg.
spec fn leg_progress(t: nat) -> int {
    let m = ring(t);
    let r = ring_rest(t);
    if r < m {
        r
    } else {
        r - m
    }
}

/// The length of the current leg.
spec fn leg_length(t: nat) -> int {
    let m = ring(t);
    let r = ring_rest(t);
    if r < m {
        m
    } else {
        m + 1
    }
}

proof fn lemma_ring_facts(t: nat)
    ensures
        ring(t) >= 0,
        0 <= ring_rest(t) <= 2 * ring(t),
        0 <= leg_progress(t) < leg_length(t),
{
    lemma_isqrt_bounds(t);
    let m = ring(t);
    assert((m + 1) * (m + 1) == m * m + 2 * m + 1) by (nonlinear_arith);
}

/// One move of the walk: the offset advances by the leg's step, and at the
/// end of a leg the walk turns anticlockwise, lengthening the leg on each
/// return to the horizontal axis.
proof fn lemma_spiral_step(t: nat)
    ensures
        spiral_offset(t + 1) == (
            spiral_offset(t).0 + step_vector(leg_direction(t)).0,
            spiral_offset(t).1 + step_vector(leg_direction(t)).1,
        ),
        leg_progress(t) + 1 < leg_length(t) ==> {
            &&& leg_direction(t + 1) == leg_direction(t)
            &&& leg_progress(t + 1) == leg_progress(t) + 1
            &&& leg_length(t + 1) == leg_length(t)
        },
        leg_progress(t) + 1 >= leg_length(t) ==> {
            &&& step_vector(leg_direction(t + 1)) == quarter_turn(
                step_vector(leg_direction(t)),
                SpiralDirection::AntiClockwise,
            )
            &&& leg_progress(t + 1) == 0
            &&& leg_length(t + 1) == leg_length(t) + if is_horizontal(leg_direction(t + 1)) {
                1int
            } else {
                0int
            }
        },
{
    lemma_isqrt_bounds(t);
    let m = ring(t);
    let r = ring_rest(t);
    assert((m + 1) * (m + 1) == m * m + 2 * m + 1) by (nonlinear_arith);
    if t + 1 < (m + 1) * (m + 1) {
        lemma_isqrt_unique((t + 1) as nat, m as nat);
    } else {
        assert((m + 2) * (m + 2) == (m + 1) * (m + 1) + 2 * (m + 1) + 1) by (nonlinear_arith);
        lemma_isqrt_unique((t + 1) as nat, (m + 1) as nat);
    }
}

/// Within the first `(2c + 1)^2` moves the walk stays in the square of
/// half-width `c` around the centre; only the move that completes that square
/// steps one cell past its right edge.
pub proof fn lemma_spiral_offset_bounds(t: nat, c: int)
    requires
        c >= 0,
        t <= (2 * c + 1) * (2 * c + 1),
    ensures
        -c <= spiral_offset(t).0 <= c + 1,
        -c <= spiral_offset(t).1 <= c,
        t < (2 * c + 1) * (2 * c + 1) ==> spiral_offset(t).0 <= c,
{
    lemma_isqrt_bounds(t);
    let m = ring(t);
    if m > 2 * c + 1 {
        assert(m * m > (2 * c + 1) * (2 * c + 1)) by (nonlinear_arith)
            requires
                m > 2 * c + 1,
                c >= 0,
        ;
    }
    if m == 2 * c + 1 {
        assert(ring_rest(t) == 0);
    }
    if t < (2 * c + 1) * (2 * c + 1) && m >= 2 * c + 1 {
        assert(m * m >= (2 * c + 1) * (2 * c + 1)) by (nonlinear_arith)
            requires
                m >= 2 * c + 1,
                c >= 0,
        ;
    }
    lemma_ring_facts(t);
}

/// A walk over the first `total_size` cells of the spiral around the centre
/// cell of a square raster.
#[derive(Clone, Copy, Debug)]
pub struct SpiralPatternIterator {
    /// The direction the spiral is currently running.
    direction: Direction,
    /// The turning sense of the spiral.
    spiral_direction: SpiralDirection,
    /// Moves made along the current direction.
    amount_through_direction: u32,
    /// The length of the current leg.
    spiral_num: u32,
    /// The current column.
    x: u32,
    /// The current row.
    y: u32,
    /// The number of cells to visit.
    total_size: u32,
    /// The direction of the first leg.
    start_direction: Direction,
    /// Cells visited so far.
    amount_through: u32,
    /// The column and row of the centre.
    centre: u32,
}

impl SpiralPatternIterator {
    /// The column (and row) of the centre cell.
    pub closed spec fn centre(&self) -> int {
        self.centre as int
    }

    /// The number of cells the walk visits.
    pub closed spec fn total(&self) -> int {
        self.total_size as int
    }

    /// The number of cells visited so far.
    pub closed spec fn visited(&self) -> int {
        self.amount_through as int
    }

    pub closed spec fn wf(&self) -> bool {
        let t = self.amount_through as nat;
        let c = self.centre as int;
        &&& self.spiral_direction == SpiralDirection::AntiClockwise
        &&& self.start_direction == Direction::Right
        &&& self.amount_through <= self.total_size
        &&& self.total_size <= (2 * c + 1) * (2 * c + 1)
        &&& 2 * c + 1 <= u32::MAX
        &&& self.direction == leg_direction(t)
        &&& self.amount_through_direction == leg_progress(t)
        &&& self.spiral_num == leg_length(t)
        &&& self.x == c + spiral_offset(t).0
        &&& self.y == c + spiral_offset(t).1
    }

    /// A walk over `total_size` cells around the centre of a raster
    /// `image_width` cells wide, first moving right and turning anticlockwise;
    /// the raster must have room for all of them.
    pub fn new(total_size: u32, image_width: u32) -> (r: Self)
        requires
            total_size <= image_width * image_width,
        ensures
            r.wf(),
            r.centre() == image_width / 2,
            r.total() == total_size,
            r.visited() == 0,
    {
        let start_direction = Direction::Right;
        let ghost c = (image_width / 2) as int;
        assert(image_width * image_width <= (2 * c + 1) * (2 * c + 1)) by (nonlinear_arith)
            requires
                0 <= image_width <= 2 * c + 1,
        ;
        proof {
            assert(0 * 0 <= 0nat < (0 + 1) * (0 + 1)) by (nonlinear_arith);
            lemma_isqrt_unique(0, 0);
        }
        Self {
            direction: start_direction,
            spiral_direction: SpiralDirection::AntiClockwise,
            amount_through_direction: 0,
            spiral_num: 1,
            x: image_width / 2,
            y: image_width / 2,
            total_size,
            start_direction,
            amount_through: 0,
            centre: image_width / 2,
        }
    }

    /// The next cell of the walk, or `None` once `total_size` cells have been
    /// visited.
    pub fn next(&mut self) -> (r: Option<(u32, u32)>)
        requires
            old(self).wf(),
        ensures
            final(self).wf(),
            final(self).centre() == old(self).centre(),
            final(self).total() == old(self).total(),
            old(self).visited() < old(self).total() ==> {
                &&& final(self).visited() == old(self).visited() + 1
                &&& r is Some
                &&& (r->Some_0.0 as int, r->Some_0.1 as int) == spiral_point(
                    old(self).centre(),
                    old(self).visited() as nat,
                )
                &&& r->Some_0.0 <= 2 * old(self).centre()
                &&& r->Some_0.1 <= 2 * old(self).centre()
            },
            old(self).visited() >= old(self).total() ==> r is None && final(self).visited()
                == old(self).visited(),
    {
        if self.amount_through >= self.total_size {
            return None;
        }
        let result = (self.x, self.y);
        let ghost t = self.amount_through as nat;
        let ghost c = self.centre as int;
        proof {
            lemma_spiral_step(t);
            lemma_ring_facts(t);
            lemma_spiral_offset_bounds(t, c);
            lemma_spiral_offset_bounds(t + 1, c);
        }
        self.amount_through += 1;
        match self.direction {
            Direction::Up => self.y -= 1,
            Direction::Left => self.x -= 1,
            Direction::Right => self.x += 1,
            Direction::Down => self.y += 1,
        }
        self.amount_through_direction += 1;
        if self.amount_through_direction >= self.spiral_num {
            let new_direction = self.direction.get_next(self.spiral_direction);
            if Direction::same_axis(self.start_direction, new_direction) {
                self.spiral_num += 1;
            }
            self.amount_through_direction = 0;
            self.direction = new_direction;
        }
        Some(result)
    }
}

} // verus!
