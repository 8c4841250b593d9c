//! Ulam spirals: the integers laid along the square spiral, marking primes or
//! sizing circles by their small divisors.

use crate::number_theory::{
    divisors_from_two, get_factor_num, is_prime, is_prime_number, isqrt, isqrt_spec,
    lemma_isqrt_unique,
};
use crate::spiral::{lemma_spiral_offset_bounds, spiral_point, SpiralPatternIterator};
use vstd::prelude::*;

verus! {

/// An RGBA colour, one byte per channel.
pub type Rgba8 = [u8; 4];

/// What an Ulam spiral shows.
#[derive(Clone, Copy, Debug, PartialEq, Eq, Structural)]
pub enum UlamSpiralMode {
    /// One pixel per integer, coloured when the integer is prime.
    PrimeOnly,
    /// One circle per integer, sized by how many divisors it has.
    Divisor,
}

/// The pixel size of one spiral cell in the divisor rendering.
pub const DEFAULT_CIRCLE_SIZE: u32 = 10;

/// The settings of an Ulam spiral.
#[derive(Clone, Copy, Debug)]
pub struct UlamSpiralOptions {
    /// The number of integers laid on the spiral.
    pub size: u32,
    /// The colour of primes, or of the circles.
    pub color: Rgba8,
    pub mode: UlamSpiralMode,
    pub background_color: Rgba8,
}

/// The smallest odd number whose square is at least `size`.
pub open spec fn is_spiral_side(side: int, size: int) -> bool {
    &&& side >= 1
    &&& side % 2 == 1
    &&& side * side >= size
    &&& side == 1 || (side - 2) * (side - 2) < size
}

/// The side of the square raster that holds a spiral of `size` cells.
pub open spec fn spiral_side(size: int) -> int {
    choose|side: int| is_spiral_side(side, size)
}

/// There is only one smallest odd number whose square reaches `size`.
pub proof fn lemma_spiral_side_unique(a: int, b: int, size: int)
    requires
        is_spiral_side(a, size),
        is_spiral_side(b, size),
    ensures
        a == b,
{
    if a < b {
        assert(a * a <= (b - 2) * (b - 2)) by (nonlinear_arith)
            requires
                1 <= a <= b - 2,
        ;
    } else if b < a {
        assert(b * b <= (a - 2) * (a - 2)) by (nonlinear_arith)
            requires
                1 <= b <= a - 2,
        ;
    }
}

/// The colour of `value` in the prime rendering.
pub open spec fn prime_colour(value: nat, color: Rgba8, background: Rgba8) -> Rgba8 {
    if is_prime_number(value) {
        color
    } else {
        background
    }
}

/// An all-transparent raster of `len` pixels.
pub open spec fn blank_raster(len: nat) -> Seq<Rgba8> {
    Seq::new(len, |i: int| [0u8, 0u8, 0u8, 0u8])
}

/// The `side` by `side` raster, row by row, after the values `0..count` have
/// been painted at their spiral cells around `(centre, centre)`, each later
/// value over the earlier ones.
pub open spec fn prime_raster(
    side: int,
    centre: int,
    count: nat,
    color: Rgba8,
    background: Rgba8,
) -> Seq<Rgba8>
    decreases count,
{
    if count == 0 {
        blank_raster((side * side) as nat)
    } else {
        let value = (count - 1) as nat;
        let p = spiral_point(centre, value);
        prime_raster(side, centre, value, color, background).update(
            p.1 * side + p.0,
            prime_colour(value, color, background),
        )
    }
}

/// The circles `(x, y, radius)` drawn for the values `0..count`: each value
/// from one on gets a circle at ten times its spiral cell, of radius a third
/// of one more than its divisors from two up to its square root.
pub open spec fn divisor_circles(centre: int, count: nat) -> Seq<(int, int, int)>
    decreases count,
{
    if count == 0 {
        Seq::empty()
    } else {
        let value = (count - 1) as nat;
        let before = divisor_circles(centre, value);
        if isqrt_spec(value) == 0 {
            before
        } else {
            let p = spiral_point(centre, value);
            before.push(
                (
                    DEFAULT_CIRCLE_SIZE * p.0,
                    DEFAULT_CIRCLE_SIZE * p.1,
                    (1 + divisors_from_two(value, isqrt_spec(value))) as int / 3,
                ),
            )
        }
    }
}

proof fn lemma_prime_raster_len(side: int, centre: int, count: nat, color: Rgba8, background: Rgba8)
    requires
        side >= 1,
        side % 2 == 1,
        centre == side / 2,
        count <= side * side,
    ensures
        prime_raster(side, centre, count, color, background).len() == side * side,
    decreases count,
{
    if count > 0 {
        let value = (count - 1) as nat;
        lemma_prime_raster_len(side, centre, value, color, background);
        lemma_spiral_offset_bounds(value, centre);
        let p = spiral_point(centre, value);
        assert(0 <= p.1 * side + p.0 < side * side) by (nonlinear_arith)
            requires
                0 <= p.0 < side,
                0 <= p.1 < side,
        ;
    } else {
        assert(side * side >= 0) by (nonlinear_arith)
            requires
                side >= 0,
        ;
    }
}

impl UlamSpiralOptions {
    pub fn new(size: u32, color: Rgba8, mode: UlamSpiralMode, background_color: Rgba8) -> (r: Self)
        ensures
            r == (UlamSpiralOptions { size, color, mode, background_color }),
    {
        Self { size, color, mode, background_color }
    }

    /// The side of the square raster in cells: the smallest odd number whose
    /// square holds `size` cells, so that the spiral has a centre cell.
    pub fn get_image_size(&self) -> (r: u32)
        ensures
            r == spiral_side(self.size as int),
            is_spiral_side(r as int, self.size as int),
            1 <= r <= 65537,
    {
        let root = isqrt(self.size);
        let ghost size = self.size as int;
        assert(root <= 65535) by (nonlinear_arith)
            requires
                root * root <= size,
                size <= u32::MAX,
        ;
        let mut image_size: u32 = root;
        if (image_size as u64) * (image_size as u64) != self.size as u64 {
            image_size += 1;
        }
        let ghost k = image_size as int;
        let ghost rt = root as int;
        proof {
            if k == rt {
                assert(rt * rt == size);
                assert(rt == 0 || (rt - 1) * (rt - 1) < rt * rt) by (nonlinear_arith)
                    requires
                        rt >= 0,
                ;
            } else {
                assert(rt * rt < size);
            }
            assert(k * k >= size && (k == 0 || (k - 1) * (k - 1) < size));
        }
        if image_size % 2 == 0 {
            image_size += 1;
        }
        let ghost r = image_size as int;
        assert(r * r >= size && (r == 1 || (r - 2) * (r - 2) < size)) by (nonlinear_arith)
            requires
                k * k >= size,
                k == 0 || (k - 1) * (k - 1) < size,
                r == k || r == k + 1,
                r == k + 1 ==> k % 2 == 0,
                r % 2 == 1,
                k >= 0,
        ;
        proof {
            assert(is_spiral_side(r, size));
            assert(exists|side: int| is_spiral_side(side, size));
            lemma_spiral_side_unique(r, spiral_side(size), size);
        }
        image_size
    }

    /// The prime rendering: a raster `get_image_size()` cells wide, row by
    /// row, where the cell of each value `0..size` on the spiral holds the
    /// colour if the value is prime and the background otherwise; cells off
    /// the spiral stay transparent.
    pub fn prime_spiral_pixels(&self) -> (r: Vec<Rgba8>)
        requires
            spiral_side(self.size as int) * spiral_side(self.size as int) <= usize::MAX,
        ensures
            r@ == prime_raster(
                spiral_side(self.size as int),
                spiral_side(self.size as int) / 2,
                self.size as nat,
                self.color,
                self.background_color,
            ),
    {
        let image_size = self.get_image_size();
        let side = image_size as usize;
        let ghost centre = (image_size / 2) as int;
        let len = side * side;
        let mut image: Vec<Rgba8> = Vec::new();
        while image.len() < len
            invariant
                image.len() <= len,
                image@ == blank_raster(image.len() as nat),
            decreases len - image.len(),
        {
            image.push([0u8, 0u8, 0u8, 0u8]);
            assert(image@ =~= blank_raster(image.len() as nat));
        }
        let mut spiral_pattern = SpiralPatternIterator::new(self.size, image_size);
        let mut value: u32 = 0;
        proof {
            lemma_prime_raster_len(side as int, centre, 0, self.color, self.background_color);
            assert(image@ =~= prime_raster(
                side as int,
                centre,
                0,
                self.color,
                self.background_color,
            ));
        }
        loop
            invariant
                spiral_pattern.wf(),
                spiral_pattern.centre() == centre,
                centre == side / 2,
                side % 2 == 1,
                side <= 65537,
                side * side <= usize::MAX,
                side == spiral_side(self.size as int),
                self.size <= side * side,
                spiral_pattern.total() == self.size,
                spiral_pattern.visited() == value,
                value <= self.size,
                image@ == prime_raster(
                    side as int,
                    centre,
                    value as nat,
                    self.color,
                    self.background_color,
                ),
                image@.len() == side * side,
            ensures
                value == self.size,
                image@ == prime_raster(
                    side as int,
                    centre,
                    value as nat,
                    self.color,
                    self.background_color,
                ),
            decreases self.size - value,
        {
            match spiral_pattern.next() {
                None => {
                    break ;
                },
                Some((x, y)) => {
                    let colour = if is_prime(value as u64) {
                        self.color
                    } else {
                        self.background_color
                    };
                    assert(y as int * side + x < side * side) by (nonlinear_arith)
                        requires
                            x < side,
                            y < side,
                    ;
                    let index = y as usize * side + x as usize;
                    image.set(index, colour);
                    proof {
                        lemma_prime_raster_len(
                            side as int,
                            centre,
                            value as nat,
                            self.color,
                            self.background_color,
                        );
                    }
                    value = value + 1;
                },
            }
        }
        image
    }

    /// The divisor rendering: for each value `0..size` along the spiral
    /// around the centre of a `get_image_size()` cell square, a circle
    /// `(x, y, radius)` in pixels, as `divisor_circles` lists them.
    pub fn divisor_spiral_circles(&self) -> (r: Vec<(i32, i32, i32)>)
        ensures
            r@.map_values(|c: (i32, i32, i32)| (c.0 as int, c.1 as int, c.2 as int))
                == divisor_circles(spiral_side(self.size as int) / 2, self.size as nat),
    {
        let image_size = self.get_image_size();
        let ghost centre = (image_size / 2) as int;
        let mut circles: Vec<(i32, i32, i32)> = Vec::new();
        let mut spiral_pattern = SpiralPatternIterator::new(self.size, image_size);
        let mut value: u32 = 0;
        proof {
            assert(circles@.map_values(
                |c: (i32, i32, i32)| (c.0 as int, c.1 as int, c.2 as int),
            ) =~= divisor_circles(centre, 0));
        }
        loop
            invariant
                spiral_pattern.wf(),
                spiral_pattern.centre() == centre,
                centre == image_size / 2,
                image_size <= 65537,
                image_size == spiral_side(self.size as int),
                spiral_pattern.total() == self.size,
                spiral_pattern.visited() == value,
                value <= self.size,
                circles@.map_values(|c: (i32, i32, i32)| (c.0 as int, c.1 as int, c.2 as int))
                    == divisor_circles(centre, value as nat),
            ensures
                value == self.size,
                circles@.map_values(|c: (i32, i32, i32)| (c.0 as int, c.1 as int, c.2 as int))
                    == divisor_circles(centre, value as nat),
            decreases self.size - value,
        {
            match spiral_pattern.next() {
                None => {
                    break ;
                },
                Some((x, y)) => {
                    let square_root = isqrt(value);
                    proof {
                        lemma_isqrt_unique(value as nat, square_root as nat);
                    }
                    if square_root != 0 {
                        let num_factors = get_factor_num(value, square_root);
                        let circle_size = num_factors / 3;
                        let circle = (
                            (x * DEFAULT_CIRCLE_SIZE) as i32,
                            (y * DEFAULT_CIRCLE_SIZE) as i32,
                            circle_size as i32,
                        );
                        let ghost before = circles@;
                        circles.push(circle);
                        proof {
                            assert(circles@.map_values(
                                |c: (i32, i32, i32)| (c.0 as int, c.1 as int, c.2 as int),
                            ) =~= before.map_values(
                                |c: (i32, i32, i32)| (c.0 as int, c.1 as int, c.2 as int),
                            ).push((circle.0 as int, circle.1 as int, circle.2 as int)));
                        }
                    }
                    value = value + 1;
                },
            }
        }
        circles
    }
}

} // verus!
