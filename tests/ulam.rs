use fun_images::number_theory::get_factor_num;
use fun_images::spiral::{Direction, SpiralDirection, SpiralPatternIterator};
use fun_images::ulam::{UlamSpiralMode, UlamSpiralOptions};

#[test]
fn test_spiral_pattern() {
    let total = 21;
    let centre = total / 2;
    let mut spiral_pattern = SpiralPatternIterator::new(total, total);
    assert_eq!(Some((centre, centre)), spiral_pattern.next());
    assert_eq!(Some((centre + 1, centre)), spiral_pattern.next());
    assert_eq!(Some((centre + 1, centre - 1)), spiral_pattern.next());
    assert_eq!(Some((centre, centre - 1)), spiral_pattern.next());
    assert_eq!(Some((centre - 1, centre - 1)), spiral_pattern.next());
    assert_eq!(Some((centre - 1, centre)), spiral_pattern.next());
    assert_eq!(Some((centre - 1, centre + 1)), spiral_pattern.next());
    assert_eq!(Some((centre, centre + 1)), spiral_pattern.next());
    assert_eq!(Some((centre + 1, centre + 1)), spiral_pattern.next());
    assert_eq!(Some((centre + 2, centre + 1)), spiral_pattern.next());
    assert_eq!(Some((centre + 2, centre)), spiral_pattern.next());
    assert_eq!(Some((centre + 2, centre - 1)), spiral_pattern.next());
    assert_eq!(Some((centre + 2, centre - 2)), spiral_pattern.next());
    assert_eq!(Some((centre + 1, centre - 2)), spiral_pattern.next());
    assert_eq!(Some((centre, centre - 2)), spiral_pattern.next());
    assert_eq!(Some((centre - 1, centre - 2)), spiral_pattern.next());
    assert_eq!(Some((centre - 2, centre - 2)), spiral_pattern.next());
    assert_eq!(Some((centre - 2, centre - 1)), spiral_pattern.next());
    assert_eq!(Some((centre - 2, centre)), spiral_pattern.next());
    assert_eq!(Some((centre - 2, centre + 1)), spiral_pattern.next());
    assert_eq!(Some((centre - 2, centre + 2)), spiral_pattern.next());
    assert_eq!(None, spiral_pattern.next());
}

#[test]
fn spiral_stays_finished() {
    let mut spiral_pattern = SpiralPatternIterator::new(1, 1);
    assert_eq!(Some((0, 0)), spiral_pattern.next());
    assert_eq!(None, spiral_pattern.next());
    assert_eq!(None, spiral_pattern.next());
}

#[test]
fn spiral_fills_the_square() {
    let side = 7u32;
    let mut seen = vec![false; (side * side) as usize];
    let mut spiral_pattern = SpiralPatternIterator::new(side * side, side);
    while let Some((x, y)) = spiral_pattern.next() {
        assert!(x < side && y < side);
        let index = (y * side + x) as usize;
        assert!(!seen[index]);
        seen[index] = true;
    }
    assert!(seen.iter().all(|&s| s));
}

#[test]
fn direction_turns() {
    assert_eq!(Direction::Right.get_next(SpiralDirection::AntiClockwise), Direction::Up);
    assert_eq!(Direction::Up.get_next(SpiralDirection::AntiClockwise), Direction::Left);
    assert_eq!(Direction::Up.get_next(SpiralDirection::Clockwise), Direction::Right);
    assert_eq!(Direction::Down.get_next(SpiralDirection::Clockwise), Direction::Left);
    assert!(Direction::Left.same_axis(Direction::Right));
    assert!(!Direction::Left.same_axis(Direction::Down));
    assert!(Direction::Up.different_axis(Direction::Left));
    assert!(!Direction::Up.different_axis(Direction::Down));
}

#[test]
fn factor_counts() {
    assert_eq!(get_factor_num(36, 6), 5);
    assert_eq!(get_factor_num(12, 3), 3);
    assert_eq!(get_factor_num(7, 2), 1);
    assert_eq!(get_factor_num(1, 1), 1);
    assert_eq!(get_factor_num(5, 0), 1);
}

#[test]
fn image_sizes() {
    let side = |size: u32| {
        UlamSpiralOptions::new(size, [0, 0, 0, 255], UlamSpiralMode::PrimeOnly, [255; 4])
            .get_image_size()
    };
    assert_eq!(side(0), 1);
    assert_eq!(side(1), 1);
    assert_eq!(side(9), 3);
    assert_eq!(side(10), 5);
    assert_eq!(side(16), 5);
    assert_eq!(side(40401), 201);
    assert_eq!(side(u32::MAX), 65537);
}

#[test]
fn prime_spiral_three_by_three() {
    let fg = [0, 0, 0, 255];
    let bg = [255, 255, 255, 255];
    let options = UlamSpiralOptions::new(9, fg, UlamSpiralMode::PrimeOnly, bg);
    let pixels = options.prime_spiral_pixels();
    // Values 0..9 laid out around the centre:
    // 4 3 2
    // 5 0 1
    // 6 7 8
    assert_eq!(pixels, vec![bg, fg, fg, fg, bg, bg, bg, fg, bg]);
}

#[test]
fn prime_spiral_leaves_unvisited_cells_blank() {
    let fg = [1, 2, 3, 4];
    let bg = [9, 9, 9, 9];
    let options = UlamSpiralOptions::new(4, fg, UlamSpiralMode::PrimeOnly, bg);
    let pixels = options.prime_spiral_pixels();
    assert_eq!(pixels.len(), 9);
    assert_eq!(pixels[4], bg);
    assert_eq!(pixels[5], bg);
    assert_eq!(pixels[2], fg);
    assert_eq!(pixels[1], fg);
    assert_eq!(pixels[0], [0, 0, 0, 0]);
    assert_eq!(pixels[8], [0, 0, 0, 0]);
}

#[test]
fn divisor_circles_small() {
    let options = UlamSpiralOptions::new(5, [0; 4], UlamSpiralMode::Divisor, [255; 4]);
    let circles = options.divisor_spiral_circles();
    // Side 3, centre 1: values 1..5 sit at (2,1), (2,0), (1,0), (0,0).
    assert_eq!(
        circles,
        vec![(20, 10, 0), (20, 0, 0), (10, 0, 0), (0, 0, 0)]
    );
}

#[test]
fn divisor_circle_radius_grows_with_divisors() {
    let options = UlamSpiralOptions::new(37, [0; 4], UlamSpiralMode::Divisor, [255; 4]);
    let circles = options.divisor_spiral_circles();
    assert_eq!(circles.len(), 36);
    // Value 36 has 2, 3, 4 and 6 below its root: radius (1 + 4) / 3.
    assert_eq!(circles[35].2, 1);
}
