use fun_images::mandelbrot::{escape_step, EscapeStep, MandelbrotImageOptions, MAX_ITER_NUM};
use fun_images::perlin::{fade_weight, perlin_cell, perlin_grid_size, FADE_SCALE};
use fun_images::sierpinski::{
    sierpinski_triangles, zoom_root, SierpinskiSubdivider, Triangle, TriangleDirection,
    ZOOM_STEPS,
};

fn orbit(re: f64, im: f64) -> Option<u32> {
    let (mut zr, mut zi) = (0.0f64, 0.0f64);
    let mut iteration = 0u32;
    loop {
        let nr = zr * zr - zi * zi + re;
        let ni = 2.0 * zr * zi + im;
        zr = nr;
        zi = ni;
        match escape_step(iteration, zr.abs() > 20.0 || zi.abs() > 20.0) {
            EscapeStep::Escaped(i) => return Some(i),
            EscapeStep::Bounded => return None,
            EscapeStep::Continue => iteration += 1,
        }
    }
}

#[test]
fn origin_stays_bounded() {
    assert_eq!(orbit(0.0, 0.0), None);
}

#[test]
fn far_point_escapes_quickly() {
    let escape = orbit(3.0, 3.0);
    assert!(matches!(escape, Some(i) if i <= 3));
}

#[test]
fn escape_steps() {
    assert_eq!(escape_step(5, true), EscapeStep::Escaped(5));
    assert_eq!(escape_step(MAX_ITER_NUM - 1, false), EscapeStep::Continue);
    assert_eq!(escape_step(MAX_ITER_NUM, false), EscapeStep::Bounded);
    assert_eq!(escape_step(MAX_ITER_NUM, true), EscapeStep::Escaped(MAX_ITER_NUM));
    assert_eq!(escape_step(0, false), EscapeStep::Continue);
}

#[test]
fn mandelbrot_colours() {
    let fg = [0, 0, 0, 255];
    let bg = [255, 255, 255, 255];
    let flat = MandelbrotImageOptions::new(fg, bg, false);
    assert_eq!(flat.pixel_color(None), bg);
    assert_eq!(flat.pixel_color(Some(100)), fg);
    let shaded = MandelbrotImageOptions::new(fg, bg, true);
    assert_eq!(shaded.pixel_color(None), bg);
    assert_eq!(shaded.pixel_color(Some(0)), fg);
    assert_eq!(shaded.pixel_color(Some(100)), [127, 127, 127, 255]);
    assert_eq!(shaded.pixel_color(Some(200)), bg);
    assert_eq!(shaded.pixel_color(Some(201)), [255, 255, 255, 255]);
    let dark = MandelbrotImageOptions::new([200, 0, 0, 0], [0, 0, 0, 0], true);
    assert_eq!(dark.pixel_color(Some(201)), [0, 0, 0, 0]);
    assert_eq!(dark.pixel_color(Some(50)), [150, 0, 0, 0]);
}

#[test]
fn other_direction() {
    assert_eq!(TriangleDirection::Up.other(), TriangleDirection::Down);
    assert_eq!(TriangleDirection::Down.other(), TriangleDirection::Up);
}

fn triangle(x: i64, y: i64, depth: u32) -> Triangle {
    Triangle { x, y, depth, direction: TriangleDirection::Down }
}

#[test]
fn height_ten_is_split_once() {
    assert_eq!(
        sierpinski_triangles(10, 1),
        vec![triangle(0, 0, 0), triangle(0, -1, 1), triangle(-1, 1, 1), triangle(1, 1, 1)]
    );
}

#[test]
fn small_root_is_not_split() {
    assert_eq!(sierpinski_triangles(9, 1), vec![triangle(0, 0, 0)]);
    assert_eq!(sierpinski_triangles(0, 1), vec![triangle(0, 0, 0)]);
}

#[test]
fn triangle_counts_follow_the_closed_form() {
    // Height 1000 is split down to depth 7 (1000 / 128 < 10).
    assert_eq!(sierpinski_triangles(1000, 1).len(), (3usize.pow(8) - 1) / 2);
    // Height 19.95 (399 / 20) is split once.
    assert_eq!(sierpinski_triangles(399, 20).len(), 4);
    // Height exactly 20 is split twice.
    assert_eq!(sierpinski_triangles(400, 20).len(), 13);
    for h in [10u64, 37, 80, 159, 160, 640, 5000] {
        let triangles = sierpinski_triangles(h, 1);
        let leaf = triangles.iter().map(|t| t.depth).max().unwrap();
        assert_eq!(triangles.len(), (3usize.pow(leaf + 1) - 1) / 2);
        let leaf_height = h as f64 / 2f64.powi(leaf as i32);
        assert!(leaf_height >= 5.0 && leaf_height < 10.0);
    }
}

#[test]
fn worklist_drains() {
    let mut worklist = SierpinskiSubdivider::new(20, 1);
    let mut count = 0;
    while let Some(t) = worklist.next_triangle() {
        assert!(t.depth <= 2);
        count += 1;
    }
    assert_eq!(count, 13);
    assert_eq!(worklist.next_triangle(), None);
}

#[test]
fn zoom_roots() {
    let plain = zoom_root(1000, 0, ZOOM_STEPS);
    assert_eq!(plain.centre_x / plain.denominator, 500);
    assert_eq!(plain.centre_y / plain.denominator, 500);
    assert_eq!(plain.height / plain.denominator, 1000);
    let zoomed = zoom_root(1000, ZOOM_STEPS, ZOOM_STEPS);
    assert_eq!(zoomed.centre_x / zoomed.denominator, 1000);
    assert_eq!(zoomed.centre_y, 0);
    assert_eq!(zoomed.height / zoomed.denominator, 2000);
    let half = zoom_root(100, 10, 20);
    assert_eq!((half.centre_x, half.centre_y, half.height, half.denominator), (3000, 1000, 6000, 40));
}

#[test]
fn grid_sizes() {
    assert_eq!(perlin_grid_size(100), 6);
    assert_eq!(perlin_grid_size(101), 7);
    assert_eq!(perlin_grid_size(1), 2);
    assert_eq!(perlin_grid_size(0), 1);
}

#[test]
fn fade_weights() {
    assert_eq!(fade_weight(0), 0);
    assert_eq!(fade_weight(20), FADE_SCALE);
    assert_eq!(fade_weight(10), FADE_SCALE / 2);
    assert_eq!(fade_weight(5), 331250);
    let mut last = 0;
    for r in 0..=20 {
        let w = fade_weight(r);
        assert!(w >= last);
        let t = r as f64 / 20.0;
        let expected = 6.0 * t.powi(5) - 15.0 * t.powi(4) + 10.0 * t.powi(3);
        assert!((w as f64 / FADE_SCALE as f64 - expected).abs() < 1e-12);
        last = w;
    }
}

#[test]
fn cell_corners() {
    let cell = perlin_cell(25, 45, 6);
    assert_eq!(cell.corners, [13, 14, 19, 20]);
    assert_eq!(cell.offsets, [(5, 5), (-15, 5), (5, -15), (-15, -15)]);
    assert_eq!(cell.fade_x, 331250);
    assert_eq!(cell.fade_y, 331250);
}

#[test]
fn offsets_run_from_corner_to_pixel() {
    let cell = perlin_cell(5, 0, 2);
    assert_eq!(cell.offsets[0], (5, 0));
    assert_eq!(cell.offsets[1], (5 - 20, 0));
}

#[test]
fn cell_corners_clamp_at_far_edge() {
    let cell = perlin_cell(119, 0, 6);
    assert_eq!(cell.corners, [5, 5, 11, 11]);
    assert_eq!(cell.offsets[1], (119 - 100, 0));
}

#[test]
fn neighbouring_cells_share_corners() {
    let before = perlin_cell(39, 7, 6);
    let after = perlin_cell(40, 7, 6);
    assert_eq!(after.fade_x, 0);
    assert_eq!(after.corners[0], before.corners[1]);
    assert_eq!(after.corners[2], before.corners[3]);
}
