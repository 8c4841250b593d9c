use fun_images::farey::{
    farey_octet_points, farey_run, sunburst_octets, sunburst_scale, FareyIterator, Quadrant,
};
use fun_images::number_theory::{gcd, reduce_fraction};

#[test]
fn test_gcd() {
    let value = gcd(100, 45);
    assert_eq!(value, 5);

    let value = gcd(1, 3);
    assert_eq!(value, 1);

    let value = gcd(84, 36);
    assert_eq!(value, 12);
}

#[test]
fn test_farey() {
    let mut farey_iterator = FareyIterator::new(5);
    assert_eq!(Some((0, 1)), farey_iterator.next());
    assert_eq!(Some((1, 5)), farey_iterator.next());
    assert_eq!(Some((1, 4)), farey_iterator.next());
    assert_eq!(Some((1, 3)), farey_iterator.next());
    assert_eq!(Some((2, 5)), farey_iterator.next());
    assert_eq!(Some((1, 2)), farey_iterator.next());
    assert_eq!(Some((3, 5)), farey_iterator.next());
    assert_eq!(Some((2, 3)), farey_iterator.next());
    assert_eq!(Some((3, 4)), farey_iterator.next());
    assert_eq!(Some((4, 5)), farey_iterator.next());
    assert_eq!(Some((1, 1)), farey_iterator.next());
    assert_eq!(None, farey_iterator.next());
}

#[test]
fn test_farey_descending() {
    let mut farey_iterator = FareyIterator::new_descending(5);
    assert_eq!(Some((1, 1)), farey_iterator.next());
    assert_eq!(Some((4, 5)), farey_iterator.next());
    assert_eq!(Some((3, 4)), farey_iterator.next());
    assert_eq!(Some((2, 3)), farey_iterator.next());
    assert_eq!(Some((3, 5)), farey_iterator.next());
    assert_eq!(Some((1, 2)), farey_iterator.next());
    assert_eq!(Some((2, 5)), farey_iterator.next());
    assert_eq!(Some((1, 3)), farey_iterator.next());
    assert_eq!(Some((1, 4)), farey_iterator.next());
    assert_eq!(Some((1, 5)), farey_iterator.next());
    assert_eq!(Some((0, 1)), farey_iterator.next());
    assert_eq!(None, farey_iterator.next());
}

#[test]
fn farey_none_repeats_after_end() {
    let mut farey_iterator = FareyIterator::new(1);
    assert_eq!(Some((0, 1)), farey_iterator.next());
    assert_eq!(Some((1, 1)), farey_iterator.next());
    assert_eq!(None, farey_iterator.next());
    assert_eq!(None, farey_iterator.next());
}

#[test]
fn farey_descending_order_one() {
    assert_eq!(farey_run(1, true), vec![(1, 1), (0, 1)]);
}

fn farey_member_count(n: i32) -> usize {
    let mut count = 0;
    for den in 1..=n {
        for num in 0..=den {
            if gcd(num.max(1), den) == 1 && (num > 0 || den == 1) {
                count += 1;
            }
        }
    }
    count
}

#[test]
fn farey_runs_increase_and_reverse() {
    for n in 1..=12 {
        let up = farey_run(n, false);
        let down = farey_run(n, true);
        assert_eq!(up.first(), Some(&(0, 1)));
        assert_eq!(up.last(), Some(&(1, 1)));
        for pair in up.windows(2) {
            let (a, b) = pair[0];
            let (c, d) = pair[1];
            assert!(a * d < c * b, "not increasing at n = {}", n);
            assert_eq!(b * c - a * d, 1);
        }
        for &(num, den) in &up {
            assert!(den >= 1 && den <= n);
            assert_eq!(reduce_fraction((num, den)), (num, den));
        }
        let mut reversed = down.clone();
        reversed.reverse();
        assert_eq!(up, reversed);
        assert_eq!(up.len(), farey_member_count(n));
    }
}

#[test]
fn reduce_fraction_values() {
    assert_eq!(reduce_fraction((6, 8)), (3, 4));
    assert_eq!(reduce_fraction((0, 7)), (0, 1));
    assert_eq!(reduce_fraction((12, 4)), (3, 1));
    assert_eq!(reduce_fraction((5, 7)), (5, 7));
}

#[test]
fn reduce_fraction_is_idempotent() {
    for num in 0..30 {
        for den in 1..30 {
            let once = reduce_fraction((num, den));
            assert_eq!(reduce_fraction(once), once);
        }
    }
}

#[test]
fn sunburst_scale_values() {
    assert_eq!(sunburst_scale(5), 82);
    assert_eq!(sunburst_scale(1), 492);
    assert_eq!(sunburst_scale(100), -15);
}

#[test]
fn octet_points_order_one() {
    assert_eq!(
        farey_octet_points(1, Quadrant::TopRight, false),
        vec![(512, 20), (1004, 20)]
    );
    assert_eq!(
        farey_octet_points(1, Quadrant::BottomLeft, true),
        vec![(20, 1004), (20, 512)]
    );
}

#[test]
fn octet_points_follow_the_sequence() {
    let points = farey_octet_points(5, Quadrant::TopLeft, true);
    let run = farey_run(5, true);
    assert_eq!(points.len(), run.len());
    for (point, &(num, den)) in points.iter().zip(run.iter()) {
        assert_eq!(*point, (512 - den as i64 * 82, 512 - num as i64 * 82));
    }
}

#[test]
fn sunburst_has_eight_octets() {
    let octets = sunburst_octets();
    assert_eq!(octets.len(), 8);
    assert_eq!(octets[0], (Quadrant::TopRight, false));
    assert_eq!(octets[7], (Quadrant::TopLeft, true));
}
