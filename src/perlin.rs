//! The integer layout of Perlin noise: the gradient grid, the corners that
//! surround each pixel, the pixel's offsets from them and the quintic fade
//! weights, all exact. The gradients themselves and the blending are
//! floating point and left to the caller.

use vstd::prelude::*;

verus! {

/// The side of one grid cell in pixels.
pub const GRID_SIZE: u32 = 20;

/// The fade weights are scaled by `GRID_SIZE^5`.
pub const FADE_SCALE: u64 = 3200000;

/// The number of grid points along each axis for a `size` pixel image: one
/// per started cell, and one more past the far edge.
pub open spec fn grid_points(size: int) -> int {
    (size + GRID_SIZE - 1) / (GRID_SIZE as int) + 1
}

/// `GRID_SIZE^5` times the quintic fade `6 t^5 - 15 t^4 + 10 t^3` at
/// `t = r / GRID_SIZE`.
pub open spec fn fade_spec(r: int) -> int {
    6 * r * r * r * r * r - 15 * (GRID_SIZE as int) * r * r * r * r + 10 * (GRID_SIZE as int) * (
    GRID_SIZE as int) * r * r * r
}

/// The grid column (or row) at the far side of the cell `g`, held at the last
/// grid point.
pub open spec fn far_corner(g: int, points: int) -> int {
    if g + 1 >= points {
        g
    } else {
        g + 1
    }
}

/// What the noise at one pixel is built from.
#[derive(Clone, Copy, Debug)]
pub struct PerlinCell {
    /// Indices into the row-major gradient grid of the top-left, top-right,
    /// bottom-left and bottom-right corners.
    pub corners: [usize; 4],
    /// The offsets from each corner to the pixel (pixel minus corner), in
    /// twentieths of a cell.
    pub offsets: [(i64, i64); 4],
    /// The horizontal and vertical fade weights, scaled by `FADE_SCALE`.
    pub fade_x: u64,
    pub fade_y: u64,
}

/// The cell data of pixel `(x, y)` on a grid of `points` by `points`.
pub open spec fn perlin_cell_spec(x: int, y: int, points: int) -> PerlinCell {
    let left = x / (GRID_SIZE as int);
    let top = y / (GRID_SIZE as int);
    let right = far_corner(left, points);
    let bottom = far_corner(top, points);
    let g = GRID_SIZE as int;
    PerlinCell {
        corners: [
            (top * points + left) as usize,
            (top * points + right) as usize,
            (bottom * points + left) as usize,
            (bottom * points + right) as usize,
        ],
        offsets: [
            ((x - g * left) as i64, (y - g * top) as i64),
            ((x - g * right) as i64, (y - g * top) as i64),
            ((x - g * left) as i64, (y - g * bottom) as i64),
            ((x - g * right) as i64, (y - g * bottom) as i64),
        ],
        fade_x: fade_spec(x % g) as u64,
        fade_y: fade_spec(y % g) as u64,
    }
}

/// The number of grid points along each axis for a `size` pixel image.
pub fn perlin_grid_size(size: u32) -> (r: usize)
    ensures
        r == grid_points(size as int),
{
    ((size as u64 + (GRID_SIZE - 1) as u64) / GRID_SIZE as u64 + 1) as usize
}

/// The fade weight of a pixel `r` pixels into its cell.
pub fn fade_weight(r: u32) -> (w: u64)
    requires
        r <= GRID_SIZE,
    ensures
        w == fade_spec(r as int),
{
    let v = r as u64;
    let ghost f = fade_spec(r as int);
    assert(f == 6 * v * v * v * v * v - 300 * v * v * v * v + 4000 * v * v * v);
    assert(f == v * v * v * (6 * v * v - 300 * v + 4000)) by (nonlinear_arith)
        requires
            f == 6 * v * v * v * v * v - 300 * v * v * v * v + 4000 * v * v * v,
    ;
    assert(v * v <= 400 && v * v * v <= 8000) by (nonlinear_arith)
        requires
            v <= 20,
    ;
    assert(0 <= 6 * v * v - 300 * v + 4000 <= 4000) by (nonlinear_arith)
        requires
            v <= 20,
    ;
    assert(0 <= v * v * v <= 8000) by (nonlinear_arith)
        requires
            v <= 20,
    ;
    assert(v * v * v * (6 * v * v - 300 * v + 4000) <= 8000 * 4000) by (nonlinear_arith)
        requires
            0 <= v * v * v <= 8000,
            0 <= 6 * v * v - 300 * v + 4000 <= 4000,
    ;
    let quad = 6 * v * v + 4000 - 300 * v;
    v * v * v * quad
}

/// The corners, offsets and fade weights of pixel `(x, y)` on a gradient grid
/// of `points` by `points`.
pub fn perlin_cell(x: u32, y: u32, points: usize) -> (r: PerlinCell)
    requires
        x / GRID_SIZE < points,
        y / GRID_SIZE < points,
        points * points <= usize::MAX,
    ensures
        r == perlin_cell_spec(x as int, y as int, points as int),
        forall|i: int| 0 <= i < 4 ==> r.corners[i] < points * points,
{
    let left = (x / GRID_SIZE) as usize;
    let top = (y / GRID_SIZE) as usize;
    let right = if left + 1 >= points {
        left
    } else {
        left + 1
    };
    let bottom = if top + 1 >= points {
        top
    } else {
        top + 1
    };
    assert(top * points + right < points * points && bottom * points + right < points * points)
        by (nonlinear_arith)
        requires
            top < points,
            bottom < points,
            right < points,
    ;
    assert(top * points + left < points * points && bottom * points + left < points * points)
        by (nonlinear_arith)
        requires
            top < points,
            bottom < points,
            left < points,
    ;
    let g = GRID_SIZE as i64;
    let xi = x as i64;
    let yi = y as i64;
    let corners = [
        top * points + left,
        top * points + right,
        bottom * points + left,
        bottom * points + right,
    ];
    let offsets = [
        (xi - g * left as i64, yi - g * top as i64),
        (xi - g * right as i64, yi - g * top as i64),
        (xi - g * left as i64, yi - g * bottom as i64),
        (xi - g * right as i64, yi - g * bottom as i64),
    ];
    let r = PerlinCell {
        corners,
        offsets,
        fade_x: fade_weight(x % GRID_SIZE),
        fade_y: fade_weight(y % GRID_SIZE),
    };
    assert(r.corners =~= perlin_cell_spec(x as int, y as int, points as int).corners);
    assert(r.offsets =~= perlin_cell_spec(x as int, y as int, points as int).offsets);
    r
}

/// The fade weight rises step by step across a cell, so the blend moves
/// steadily from one pair of corners to the other.
pub proof fn lemma_fade_rises(r: int)
    requires
        0 <= r < GRID_SIZE,
    ensures
        fade_spec(r) < fade_spec(r + 1),
{
    let lo = fade_spec(r);
    let hi = fade_spec(r + 1);
    assert(lo == 6 * r * r * r * r * r - 300 * r * r * r * r + 4000 * r * r * r);
    assert(hi == 6 * (r + 1) * (r + 1) * (r + 1) * (r + 1) * (r + 1) - 300 * (r + 1) * (r + 1) * (
    r + 1) * (r + 1) + 4000 * (r + 1) * (r + 1) * (r + 1));
    // The step is `30 a (a - 19) + 3706` with `a = r (r - 19) <= 0`.
    let a = r * (r - 19);
    assert(a <= 0) by (nonlinear_arith)
        requires
            0 <= r <= 19,
            a == r * (r - 19),
    ;
    assert(hi - lo == 30 * (a * (a - 19)) + 3706) by (nonlinear_arith)
        requires
            lo == 6 * r * r * r * r * r - 300 * r * r * r * r + 4000 * r * r * r,
            hi == 6 * (r + 1) * (r + 1) * (r + 1) * (r + 1) * (r + 1) - 300 * (r + 1) * (r + 1) * (
            r + 1) * (r + 1) + 4000 * (r + 1) * (r + 1) * (r + 1),
            a == r * (r - 19),
    ;
    assert(a * (a - 19) >= 0) by (nonlinear_arith)
        requires
            a <= 0,
    ;
}

/// The fade is symmetric about the middle of a cell, where it is exactly
/// half; and it vanishes to third order at a cell's near edge (a factor
/// `r^3`), hence by symmetry flattens to full weight at the far edge, so the
/// blend has no kink at cell boundaries.
pub proof fn lemma_fade_shape(r: int)
    ensures
        fade_spec(r) + fade_spec(GRID_SIZE as int - r) == FADE_SCALE,
        fade_spec(r) == r * r * r * (6 * r * r - 300 * r + 4000),
        2 * fade_spec(GRID_SIZE as int / 2) == FADE_SCALE,
{
    let f = fade_spec(r);
    let g = fade_spec(20 - r);
    assert(f == 6 * r * r * r * r * r - 300 * r * r * r * r + 4000 * r * r * r);
    assert(g == 6 * (20 - r) * (20 - r) * (20 - r) * (20 - r) * (20 - r) - 300 * (20 - r) * (20
        - r) * (20 - r) * (20 - r) + 4000 * (20 - r) * (20 - r) * (20 - r));
    assert(f + g == 3200000 && f == r * r * r * (6 * r * r - 300 * r + 4000)) by (nonlinear_arith)
        requires
            f == 6 * r * r * r * r * r - 300 * r * r * r * r + 4000 * r * r * r,
            g == 6 * (20 - r) * (20 - r) * (20 - r) * (20 - r) * (20 - r) - 300 * (20 - r) * (20
                - r) * (20 - r) * (20 - r) + 4000 * (20 - r) * (20 - r) * (20 - r),
    ;
    assert(fade_spec(10) == 1600000) by (nonlinear_arith);
}

/// The blend is continuous across the edge between two cells: the fade runs
/// from nothing at a cell's near edge to full weight at its far edge, and a
/// pixel on the near edge of a cell uses, as its near corners, the far
/// corners of the pixel just before it.
pub proof fn lemma_cell_edge_continuity(x: int, y: int, points: int)
    requires
        x >= GRID_SIZE,
        x % (GRID_SIZE as int) == 0,
        y >= 0,
        x / (GRID_SIZE as int) < points,
        y / (GRID_SIZE as int) < points,
    ensures
        fade_spec(0) == 0,
        fade_spec(GRID_SIZE as int) == FADE_SCALE,
        perlin_cell_spec(x, y, points).fade_x == 0,
        perlin_cell_spec(x, y, points).corners[0] == perlin_cell_spec(x - 1, y, points).corners[1],
        perlin_cell_spec(x, y, points).corners[2] == perlin_cell_spec(x - 1, y, points).corners[3],
{
    assert(fade_spec(GRID_SIZE as int) == FADE_SCALE) by (nonlinear_arith);
    assert(fade_spec(0) == 0) by (nonlinear_arith);
}

} // verus!
