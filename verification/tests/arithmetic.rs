use poisson_disk::{cell_of, distance_squared, isqrt, scale, shift, Point};

#[test]
fn isqrt_of_small_numbers() {
    assert_eq!(isqrt(0), 0);
    assert_eq!(isqrt(1), 1);
    assert_eq!(isqrt(2), 1);
    assert_eq!(isqrt(3), 1);
    assert_eq!(isqrt(4), 2);
    assert_eq!(isqrt(99), 9);
    assert_eq!(isqrt(100), 10);
    assert_eq!(isqrt(101), 10);
}

#[test]
fn isqrt_of_large_numbers() {
    assert_eq!(isqrt(u64::MAX), 4_294_967_295);
    assert_eq!(isqrt(4_294_967_295 * 4_294_967_295), 4_294_967_295);
    assert_eq!(isqrt(4_294_967_295 * 4_294_967_295 - 1), 4_294_967_294);
    assert_eq!(isqrt(1 << 62), 1 << 31);
}

#[test]
fn isqrt_brackets_its_argument() {
    for n in 0u64..5000 {
        let s = isqrt(n);
        assert!(s * s <= n);
        assert!(n < (s + 1) * (s + 1));
    }
}

#[test]
fn cell_of_radius_ten() {
    // Cells have side 10 / sqrt(2) = 7.07..: 0..=7, 8..=14, 15..=21, 22..=28.
    assert_eq!(cell_of(0, 10), 0);
    assert_eq!(cell_of(7, 10), 0);
    assert_eq!(cell_of(8, 10), 1);
    assert_eq!(cell_of(14, 10), 1);
    assert_eq!(cell_of(15, 10), 2);
    assert_eq!(cell_of(21, 10), 2);
    assert_eq!(cell_of(22, 10), 3);
    assert_eq!(cell_of(99, 10), 14);
    assert_eq!(cell_of(100, 10), 14);
}

#[test]
fn cell_of_radius_one() {
    // floor(x * sqrt(2)).
    assert_eq!(cell_of(0, 1), 0);
    assert_eq!(cell_of(1, 1), 1);
    assert_eq!(cell_of(2, 1), 2);
    assert_eq!(cell_of(3, 1), 4);
    assert_eq!(cell_of(5, 1), 7);
    assert_eq!(cell_of(10, 1), 14);
    assert_eq!(cell_of(16_777_216, 1), 23_726_566);
}

#[test]
fn cell_of_large_radius() {
    assert_eq!(cell_of(9, 100), 0);
    assert_eq!(cell_of(16_777_216, u32::MAX), 0);
    assert_eq!(cell_of(70, 100), 0);
    assert_eq!(cell_of(71, 100), 1);
}

#[test]
fn cell_of_matches_its_definition() {
    for r in 1u32..12 {
        for x in 0usize..200 {
            let k = cell_of(x, r) as u64;
            let r = r as u64;
            let x = x as u64;
            assert!(k * k * r * r <= 2 * x * x);
            assert!(2 * x * x < (k + 1) * (k + 1) * r * r);
        }
    }
}

#[test]
fn scale_examples() {
    assert_eq!(scale(0, 100), 0);
    assert_eq!(scale(0x8000_0000, 100), 50);
    assert_eq!(scale(0x4000_0000, 100), 25);
    assert_eq!(scale(u32::MAX, 100), 99);
    assert_eq!(scale(u32::MAX, 1), 0);
    assert_eq!(scale(u32::MAX, 0), 0);
    assert_eq!(scale(0x8000_0000, 3), 1);
    assert_eq!(scale(0xAAAA_AAAB, 3), 2);
    assert_eq!(scale(0xAAAA_AAAA, 3), 1);
}

#[test]
fn scale_stays_below_the_bound() {
    assert_eq!(scale(u32::MAX, usize::MAX), usize::MAX - (usize::MAX >> 32) - 1);
    for n in 1usize..50 {
        assert!(scale(u32::MAX, n) < n);
        assert_eq!(scale(0, n), 0);
    }
}

#[test]
fn shift_moves_and_clamps() {
    assert_eq!(shift(50, 15, 100), 65);
    assert_eq!(shift(50, -15, 100), 35);
    assert_eq!(shift(50, -50, 100), 0);
    assert_eq!(shift(50, -51, 100), 0);
    assert_eq!(shift(50, 49, 100), 99);
    assert_eq!(shift(50, 50, 100), 99);
    assert_eq!(shift(50, i64::MAX, 100), 99);
    assert_eq!(shift(50, i64::MIN, 100), 0);
    assert_eq!(shift(0, 0, 1), 0);
    assert_eq!(shift(usize::MAX, 0, 7), 6);
    assert_eq!(shift(usize::MAX, i64::MIN, u32::MAX), u32::MAX as usize - 1);
}

#[test]
fn distance_squared_examples() {
    assert_eq!(distance_squared(Point(0, 0), Point(3, 4)), 25);
    assert_eq!(distance_squared(Point(3, 4), Point(0, 0)), 25);
    assert_eq!(distance_squared(Point(7, 7), Point(7, 7)), 0);
    assert_eq!(distance_squared(Point(50, 50), Point(65, 50)), 225);
    assert_eq!(
        distance_squared(Point(0, 0), Point(16_777_216, 16_777_216)),
        2 * 16_777_216 * 16_777_216
    );
}
