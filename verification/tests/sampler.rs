use poisson_disk::{
    cell_of, Cell, ConfigError, Offset, OutOfRange, Point, PoissonDisk, MAX_AREA,
};

/// A small deterministic generator of 32-bit draws.
struct Draws(u64);

impl Draws {
    fn next(&mut self) -> u32 {
        self.0 = self
            .0
            .wrapping_mul(6_364_136_223_846_793_005)
            .wrapping_add(1_442_695_040_888_963_407);
        (self.0 >> 32) as u32
    }

    fn unit(&mut self) -> f64 {
        self.next() as f64 / 4_294_967_296.0
    }

    /// A throw into the annulus between `radius` and twice `radius`.
    fn offset(&mut self, radius: u32) -> Offset {
        let theta = 2.0 * std::f64::consts::PI * self.unit();
        let rho = radius as f64 * (1.0 + self.unit());
        Offset {
            dx: (rho * theta.cos()).floor() as i64,
            dy: (rho * theta.sin()).floor() as i64,
        }
    }

    fn offsets(&mut self, radius: u32, n: u32) -> Vec<Offset> {
        (0..n).map(|_| self.offset(radius)).collect()
    }
}

fn dist2(a: Point, b: Point) -> u64 {
    let dx = a.0.abs_diff(b.0) as u64;
    let dy = a.1.abs_diff(b.1) as u64;
    dx * dx + dy * dy
}

fn accepted(disk: &PoissonDisk) -> Vec<Point> {
    let mut all = vec![disk.seed()];
    for i in 0..disk.num_points() {
        all.push(disk.point_at_idx(i).unwrap());
    }
    all
}

fn off(dx: i64, dy: i64) -> Offset {
    Offset { dx, dy }
}

const HALF: u32 = 0x8000_0000;

#[test]
fn runs_to_convergence_with_minimum_distance() {
    let mut draws = Draws(1);
    let mut disk = PoissonDisk::new(100, 100, 10, 30, draws.next(), draws.next()).unwrap();
    let mut steps = 0u32;
    loop {
        let pick = draws.next();
        let offsets = draws.offsets(10, 30);
        if !disk.tick(pick, &offsets) {
            break;
        }
        steps += 1;
        assert!(steps < 100_000);
    }
    assert_eq!(disk.num_active(), 0);
    let all = accepted(&disk);
    assert!(all.len() > 20);
    for i in 0..all.len() {
        assert!(all[i].0 < 100 && all[i].1 < 100);
        for j in 0..i {
            assert!(dist2(all[i], all[j]) > 100);
        }
    }
}

#[test]
fn reset_before_any_step_restores_the_size() {
    let mut disk = PoissonDisk::new(50, 50, 5, 1, HALF, HALF).unwrap();
    let at_start = disk.num_points();
    assert_eq!(at_start, 0);
    disk.reset(7, 9);
    assert_eq!(disk.num_points(), at_start);
    assert_eq!(disk.num_active(), 1);
}

#[test]
fn radius_larger_than_the_domain_retires_the_seed() {
    let mut draws = Draws(3);
    let mut disk = PoissonDisk::new(10, 10, 100, 5, draws.next(), draws.next()).unwrap();
    let seed = disk.seed();
    for dx in -250i64..250 {
        let c = disk.new_point(seed, off(dx, 3 * dx - 7));
        assert!(!disk.is_valid(c));
    }
    let offsets = draws.offsets(100, 5);
    assert!(disk.tick(draws.next(), &offsets));
    assert_eq!(disk.num_points(), 0);
    assert_eq!(disk.num_active(), 0);
    assert_eq!(disk.status_at(seed), Cell::DEAD);
    let offsets = draws.offsets(100, 5);
    assert!(!disk.tick(draws.next(), &offsets));
    assert_eq!(disk.num_points(), 0);
}

#[test]
fn new_seeds_from_the_two_draws() {
    let disk = PoissonDisk::new(100, 80, 10, 30, HALF, 0x4000_0000).unwrap();
    assert_eq!(disk.seed(), Point(50, 20));
    assert_eq!(disk.width(), 100);
    assert_eq!(disk.height(), 80);
    assert_eq!(disk.radius(), 10);
    assert_eq!(disk.num_samples(), 30);
    assert_eq!(disk.num_points(), 0);
    assert_eq!(disk.num_active(), 1);
    assert_eq!(disk.status_at(Point(50, 20)), Cell::ACTIVE);
    assert_eq!(disk.status_at(Point(20, 50)), Cell::EMPTY);
    let corner = PoissonDisk::new(100, 80, 10, 30, u32::MAX, u32::MAX).unwrap();
    assert_eq!(corner.seed(), Point(99, 79));
    let origin = PoissonDisk::new(100, 80, 10, 30, 0, 0).unwrap();
    assert_eq!(origin.seed(), Point(0, 0));
}

#[test]
fn new_refuses_a_zero_radius() {
    assert_eq!(PoissonDisk::new(10, 10, 0, 5, 0, 0).err(), Some(ConfigError::ZeroRadius));
    assert_eq!(PoissonDisk::new(0, 0, 0, 0, 0, 0).err(), Some(ConfigError::ZeroRadius));
}

#[test]
fn new_refuses_zero_samples() {
    assert_eq!(PoissonDisk::new(10, 10, 3, 0, 0, 0).err(), Some(ConfigError::ZeroSamples));
    assert_eq!(PoissonDisk::new(0, 10, 3, 0, 0, 0).err(), Some(ConfigError::ZeroSamples));
}

#[test]
fn new_refuses_an_empty_domain() {
    assert_eq!(PoissonDisk::new(0, 10, 3, 5, 0, 0).err(), Some(ConfigError::EmptyDomain));
    assert_eq!(PoissonDisk::new(10, 0, 3, 5, 0, 0).err(), Some(ConfigError::EmptyDomain));
    assert_eq!(PoissonDisk::new(0, 0, 3, 5, 0, 0).err(), Some(ConfigError::EmptyDomain));
}

#[test]
fn new_refuses_too_large_a_domain() {
    assert_eq!(MAX_AREA, 16_777_216);
    assert_eq!(
        PoissonDisk::new(4097, 4096, 3, 5, 0, 0).err(),
        Some(ConfigError::DomainTooLarge)
    );
    assert_eq!(
        PoissonDisk::new(u32::MAX, u32::MAX, 3, 5, 0, 0).err(),
        Some(ConfigError::DomainTooLarge)
    );
    assert_eq!(
        PoissonDisk::new(16_777_217, 1, 3, 5, 0, 0).err(),
        Some(ConfigError::DomainTooLarge)
    );
}

#[test]
fn new_accepts_the_largest_domain() {
    let wide = PoissonDisk::new(16_777_216, 1, u32::MAX, 1, u32::MAX, u32::MAX).unwrap();
    assert_eq!(wide.seed(), Point(16_777_215, 0));
    let mut square = PoissonDisk::new(4096, 4096, 100, 2, u32::MAX, 0).unwrap();
    assert_eq!(square.seed(), Point(4095, 0));
    assert!(square.tick(0, &vec![off(-101, 0), off(60, 101)]));
    assert_eq!(accepted(&square), vec![Point(4095, 0), Point(3994, 0), Point(4095, 101)]);
}

#[test]
fn tick_accepts_and_rejects_by_distance() {
    let mut disk = PoissonDisk::new(100, 100, 10, 4, HALF, HALF).unwrap();
    assert_eq!(disk.seed(), Point(50, 50));
    // 15 away: accepted. 5 away: rejected. On an accepted point: rejected.
    // 6-8-10 triangle, exactly the radius away: rejected.
    let more = disk.tick(0, &vec![off(15, 0), off(5, 0), off(15, 0), off(6, 8)]);
    assert!(more);
    assert_eq!(disk.num_points(), 1);
    assert_eq!(disk.point_at_idx(0), Ok(Point(65, 50)));
    assert_eq!(disk.num_active(), 2);
    assert_eq!(disk.status_at(Point(50, 50)), Cell::ACTIVE);
    assert_eq!(disk.status_at(Point(65, 50)), Cell::ACTIVE);
    assert_eq!(disk.status_at(Point(55, 50)), Cell::EMPTY);
    assert_eq!(disk.status_at(Point(56, 58)), Cell::EMPTY);
}

#[test]
fn tick_accepts_just_beyond_the_radius() {
    let mut disk = PoissonDisk::new(100, 100, 10, 4, HALF, HALF).unwrap();
    assert!(disk.tick(0, &vec![off(10, 0), off(0, -10), off(-11, 0), off(7, 8)]));
    assert_eq!(accepted(&disk), vec![Point(50, 50), Point(39, 50), Point(57, 58)]);
}

#[test]
fn tick_sees_points_accepted_earlier_in_the_same_step() {
    let mut disk = PoissonDisk::new(100, 100, 10, 3, HALF, HALF).unwrap();
    // The second candidate is 11 from the seed but 5 from the first one.
    assert!(disk.tick(0, &vec![off(11, 0), off(11, 5), off(-11, 5)]));
    assert_eq!(accepted(&disk), vec![Point(50, 50), Point(61, 50), Point(39, 55)]);
}

#[test]
fn tick_throws_at_most_num_samples_candidates() {
    let mut disk = PoissonDisk::new(100, 100, 10, 2, HALF, HALF).unwrap();
    assert!(disk.tick(0, &vec![off(1, 0), off(2, 0), off(20, 0), off(0, 20)]));
    assert_eq!(disk.num_points(), 0);
    assert_eq!(disk.num_active(), 0);
    assert_eq!(disk.status_at(Point(50, 50)), Cell::DEAD);
    assert_eq!(disk.status_at(Point(70, 50)), Cell::EMPTY);
}

#[test]
fn tick_with_fewer_offsets_throws_them_all() {
    let mut disk = PoissonDisk::new(100, 100, 10, 30, HALF, HALF).unwrap();
    assert!(disk.tick(0, &vec![off(0, 20)]));
    assert_eq!(accepted(&disk), vec![Point(50, 50), Point(50, 70)]);
    assert_eq!(disk.num_active(), 2);
}

#[test]
fn tick_without_offsets_retires_the_selected_point() {
    let mut disk = PoissonDisk::new(100, 100, 10, 30, HALF, HALF).unwrap();
    assert!(disk.tick(12345, &[]));
    assert_eq!(disk.num_points(), 0);
    assert_eq!(disk.num_active(), 0);
    assert_eq!(disk.status_at(Point(50, 50)), Cell::DEAD);
    assert!(!disk.tick(12345, &vec![off(20, 20)]));
    assert_eq!(disk.num_points(), 0);
    assert_eq!(disk.status_at(Point(70, 70)), Cell::EMPTY);
}

#[test]
fn tick_clamps_candidates_into_the_domain() {
    let mut disk = PoissonDisk::new(100, 60, 10, 4, HALF, HALF).unwrap();
    assert_eq!(disk.seed(), Point(50, 30));
    assert!(disk.tick(
        0,
        &vec![off(-1000, 0), off(1000, 0), off(0, i64::MIN), off(0, i64::MAX)]
    ));
    assert_eq!(
        accepted(&disk),
        vec![Point(50, 30), Point(0, 30), Point(99, 30), Point(50, 0), Point(50, 59)]
    );
}

#[test]
fn new_point_shifts_and_clamps() {
    let disk = PoissonDisk::new(100, 60, 10, 4, HALF, HALF).unwrap();
    assert_eq!(disk.new_point(Point(50, 30), off(3, -4)), Point(53, 26));
    assert_eq!(disk.new_point(Point(50, 30), off(49, 29)), Point(99, 59));
    assert_eq!(disk.new_point(Point(50, 30), off(50, 30)), Point(99, 59));
    assert_eq!(disk.new_point(Point(50, 30), off(-50, -30)), Point(0, 0));
    assert_eq!(disk.new_point(Point(50, 30), off(-51, -31)), Point(0, 0));
    assert_eq!(disk.new_point(Point(5000, 3000), off(0, 0)), Point(99, 59));
}

#[test]
fn tick_never_selects_the_last_of_several_frontier_points() {
    let mut disk = PoissonDisk::new(100, 100, 10, 1, HALF, HALF).unwrap();
    assert!(disk.tick(0, &vec![off(20, 0)]));
    assert_eq!(disk.num_active(), 2);
    // The largest draw still selects the first of two points: the seed.
    assert!(disk.tick(u32::MAX, &vec![off(1, 0)]));
    assert_eq!(disk.num_active(), 1);
    assert_eq!(disk.status_at(Point(50, 50)), Cell::DEAD);
    assert_eq!(disk.status_at(Point(70, 50)), Cell::ACTIVE);
    // Alone in the frontier, the last point is selected.
    assert!(disk.tick(u32::MAX, &vec![off(1, 0)]));
    assert_eq!(disk.num_active(), 0);
    assert_eq!(disk.status_at(Point(70, 50)), Cell::DEAD);
}

#[test]
fn tick_selects_by_the_scaled_draw() {
    let mut disk = PoissonDisk::new(200, 200, 10, 3, HALF, HALF).unwrap();
    assert!(disk.tick(0, &vec![off(20, 0), off(0, 20), off(-20, 0)]));
    assert_eq!(disk.num_active(), 4);
    // Four points: the draw is scaled by three. Two thirds selects position 2.
    assert!(disk.tick(0xAAAA_AAAB, &vec![off(0, 1)]));
    assert_eq!(disk.num_active(), 3);
    assert_eq!(disk.status_at(Point(100, 120)), Cell::DEAD);
    assert_eq!(disk.status_at(Point(100, 100)), Cell::ACTIVE);
    assert_eq!(disk.status_at(Point(120, 100)), Cell::ACTIVE);
    assert_eq!(disk.status_at(Point(80, 100)), Cell::ACTIVE);
    // Three points: the draw is scaled by two. Just under a half selects 0.
    assert!(disk.tick(HALF - 1, &vec![off(0, 1)]));
    assert_eq!(disk.status_at(Point(100, 100)), Cell::DEAD);
    assert_eq!(disk.num_active(), 2);
}

#[test]
fn is_valid_looks_two_cells_away_on_every_side() {
    // With radius 10 the columns 0..=7 are cell 0 and 15..=21 are cell 2.
    let right = PoissonDisk::new(40, 1, 10, 1, scale_to(17, 40), 0).unwrap();
    assert_eq!(right.seed(), Point(17, 0));
    assert!(!right.is_valid(Point(7, 0)));
    assert!(right.is_valid(Point(6, 0)));
    let left = PoissonDisk::new(40, 1, 10, 1, scale_to(7, 40), 0).unwrap();
    assert_eq!(left.seed(), Point(7, 0));
    assert!(!left.is_valid(Point(17, 0)));
    assert!(left.is_valid(Point(18, 0)));
    let below = PoissonDisk::new(1, 40, 10, 1, 0, scale_to(17, 40)).unwrap();
    assert_eq!(below.seed(), Point(0, 17));
    assert!(!below.is_valid(Point(0, 7)));
    assert!(below.is_valid(Point(0, 6)));
    let above = PoissonDisk::new(1, 40, 10, 1, 0, scale_to(7, 40)).unwrap();
    assert!(!above.is_valid(Point(0, 17)));
    assert!(above.is_valid(Point(0, 18)));
}

/// A draw that scales to `x` in `0 .. n`.
fn scale_to(x: u64, n: u64) -> u32 {
    (((x << 32) + (1 << 31)) / n) as u32
}

#[test]
fn is_valid_refuses_points_outside_the_domain() {
    let disk = PoissonDisk::new(100, 60, 10, 4, 0, 0).unwrap();
    assert!(disk.is_valid(Point(99, 59)));
    assert!(!disk.is_valid(Point(100, 59)));
    assert!(!disk.is_valid(Point(99, 60)));
    assert!(!disk.is_valid(Point(usize::MAX, usize::MAX)));
    assert!(!disk.is_valid(Point(0, 0)));
    assert!(!disk.is_valid(Point(10, 0)));
    assert!(disk.is_valid(Point(11, 0)));
}

#[test]
fn is_valid_agrees_with_a_scan_of_all_points() {
    let mut draws = Draws(11);
    let mut disk = PoissonDisk::new(64, 48, 7, 8, draws.next(), draws.next()).unwrap();
    for _ in 0..40 {
        let pick = draws.next();
        let offsets = draws.offsets(7, 8);
        disk.tick(pick, &offsets);
    }
    let all = accepted(&disk);
    assert!(all.len() > 5);
    for x in 0..64 {
        for y in 0..48 {
            let p = Point(x, y);
            let clear = all.iter().all(|q| dist2(*q, p) > 49);
            assert_eq!(disk.is_valid(p), clear);
        }
    }
}

#[test]
fn point_at_idx_past_the_end_is_refused() {
    let mut disk = PoissonDisk::new(100, 100, 10, 2, HALF, HALF).unwrap();
    assert_eq!(disk.point_at_idx(0), Err(OutOfRange { index: 0, len: 0 }));
    assert!(disk.tick(0, &vec![off(20, 0), off(0, 20)]));
    assert_eq!(disk.num_points(), 2);
    assert_eq!(disk.point_at_idx(1), Ok(Point(50, 70)));
    assert_eq!(disk.point_at_idx(disk.num_points()), Err(OutOfRange { index: 2, len: 2 }));
    assert_eq!(
        disk.point_at_idx(usize::MAX),
        Err(OutOfRange { index: usize::MAX, len: 2 })
    );
}

#[test]
fn point_at_idx_is_stable_between_steps() {
    let mut draws = Draws(5);
    let mut disk = PoissonDisk::new(80, 80, 6, 10, draws.next(), draws.next()).unwrap();
    for _ in 0..10 {
        let pick = draws.next();
        let offsets = draws.offsets(6, 10);
        disk.tick(pick, &offsets);
    }
    assert!(disk.num_points() > 0);
    for i in 0..disk.num_points() + 2 {
        assert_eq!(disk.point_at_idx(i), disk.point_at_idx(i));
    }
}

#[test]
fn num_points_never_shrinks_and_samples_stay_in_place() {
    let mut draws = Draws(8);
    let mut disk = PoissonDisk::new(60, 60, 5, 6, draws.next(), draws.next()).unwrap();
    let mut seen: Vec<Point> = Vec::new();
    for _ in 0..300 {
        let pick = draws.next();
        let offsets = draws.offsets(5, 6);
        disk.tick(pick, &offsets);
        assert!(disk.num_points() >= seen.len());
        for (i, p) in seen.iter().enumerate() {
            assert_eq!(disk.point_at_idx(i), Ok(*p));
        }
        seen = accepted(&disk)[1..].to_vec();
    }
    assert!(seen.len() > 10);
}

#[test]
fn tick_reports_false_exactly_when_the_frontier_is_empty() {
    let mut draws = Draws(21);
    let mut disk = PoissonDisk::new(30, 30, 6, 5, draws.next(), draws.next()).unwrap();
    let mut stopped = false;
    for _ in 0..10_000 {
        let active = disk.num_active();
        let points = disk.num_points();
        let pick = draws.next();
        let offsets = draws.offsets(6, 5);
        let more = disk.tick(pick, &offsets);
        assert_eq!(more, active > 0);
        if more {
            let grew = disk.num_points() > points && disk.num_active() > active;
            let retired = disk.num_points() == points && disk.num_active() == active - 1;
            assert!(grew || retired);
        } else {
            assert_eq!(disk.num_points(), points);
            assert_eq!(disk.num_active(), 0);
            stopped = true;
        }
    }
    assert!(stopped);
}

#[test]
fn a_dead_location_stays_dead() {
    let mut draws = Draws(34);
    let mut disk = PoissonDisk::new(40, 40, 5, 4, draws.next(), draws.next()).unwrap();
    let mut dead: Vec<Point> = Vec::new();
    for _ in 0..2_000 {
        let pick = draws.next();
        let offsets = draws.offsets(5, 4);
        disk.tick(pick, &offsets);
        for p in &dead {
            assert_eq!(disk.status_at(*p), Cell::DEAD);
        }
        dead = accepted(&disk)
            .into_iter()
            .filter(|p| disk.status_at(*p) == Cell::DEAD)
            .collect();
        let live = accepted(&disk).len() - dead.len();
        assert_eq!(live, disk.num_active());
    }
    assert_eq!(disk.num_active(), 0);
    assert_eq!(dead.len(), disk.num_points() + 1);
}

#[test]
fn reset_keeps_the_configuration_and_drops_the_state() {
    let mut draws = Draws(13);
    let mut disk = PoissonDisk::new(90, 70, 8, 12, draws.next(), draws.next()).unwrap();
    for _ in 0..50 {
        let pick = draws.next();
        let offsets = draws.offsets(8, 12);
        disk.tick(pick, &offsets);
    }
    let before = accepted(&disk);
    assert!(before.len() > 5);
    disk.reset(HALF, 0);
    assert_eq!(disk.width(), 90);
    assert_eq!(disk.height(), 70);
    assert_eq!(disk.radius(), 8);
    assert_eq!(disk.num_samples(), 12);
    assert_eq!(disk.num_points(), 0);
    assert_eq!(disk.num_active(), 1);
    assert_eq!(disk.seed(), Point(45, 0));
    assert_eq!(disk.point_at_idx(0), Err(OutOfRange { index: 0, len: 0 }));
    for p in before {
        let expected = if p == Point(45, 0) { Cell::ACTIVE } else { Cell::EMPTY };
        assert_eq!(disk.status_at(p), expected);
    }
    // Every point but those near the new seed can be accepted again.
    assert!(disk.is_valid(Point(45, 9)));
    assert!(!disk.is_valid(Point(45, 8)));
    assert!(disk.tick(0, &vec![off(0, 9)]));
    assert_eq!(disk.point_at_idx(0), Ok(Point(45, 9)));
}

#[test]
fn reset_gives_the_state_of_a_new_sampler() {
    let mut draws = Draws(55);
    let mut used = PoissonDisk::new(64, 64, 6, 5, draws.next(), draws.next()).unwrap();
    for _ in 0..30 {
        let pick = draws.next();
        let offsets = draws.offsets(6, 5);
        used.tick(pick, &offsets);
    }
    used.reset(1_000_000_000, 3_000_000_000);
    let mut fresh = PoissonDisk::new(64, 64, 6, 5, 1_000_000_000, 3_000_000_000).unwrap();
    assert_eq!(used.seed(), fresh.seed());
    for _ in 0..200 {
        let pick = draws.next();
        let offsets = draws.offsets(6, 5);
        assert_eq!(used.tick(pick, &offsets), fresh.tick(pick, &offsets));
        assert_eq!(accepted(&used), accepted(&fresh));
        assert_eq!(used.num_active(), fresh.num_active());
    }
    for x in 0..64 {
        for y in 0..64 {
            assert_eq!(used.status_at(Point(x, y)), fresh.status_at(Point(x, y)));
        }
    }
}

#[test]
fn status_outside_the_domain_is_empty() {
    let disk = PoissonDisk::new(10, 10, 3, 5, 0, 0).unwrap();
    assert_eq!(disk.status_at(Point(0, 0)), Cell::ACTIVE);
    assert_eq!(disk.status_at(Point(10, 0)), Cell::EMPTY);
    assert_eq!(disk.status_at(Point(0, 10)), Cell::EMPTY);
    assert_eq!(disk.status_at(Point(usize::MAX, usize::MAX)), Cell::EMPTY);
}

#[test]
fn radius_one_fills_every_second_location() {
    // With radius 1 neighbours must be more than 1 apart: diagonal steps do.
    let mut disk = PoissonDisk::new(3, 3, 1, 8, HALF, HALF).unwrap();
    assert_eq!(disk.seed(), Point(1, 1));
    let around = vec![
        off(1, 0),
        off(1, 1),
        off(0, 1),
        off(-1, 1),
        off(-1, 0),
        off(-1, -1),
        off(0, -1),
        off(1, -1),
    ];
    assert!(disk.tick(0, &around));
    assert_eq!(
        accepted(&disk),
        vec![Point(1, 1), Point(2, 2), Point(0, 2), Point(0, 0), Point(2, 0)]
    );
}

#[test]
fn accepted_points_and_steps_are_bounded_by_the_grid() {
    for (seed, width, height, radius, k) in
        [(1u64, 40u32, 30u32, 4u32, 6u32), (2, 25, 25, 1, 3), (3, 64, 8, 9, 10), (4, 7, 90, 3, 2)]
    {
        let mut draws = Draws(seed);
        let mut disk = PoissonDisk::new(width, height, radius, k, draws.next(), draws.next())
            .unwrap();
        let cols = cell_of(width as usize, radius) + 2;
        let rows = cell_of(height as usize, radius) + 2;
        let capacity = cols * rows;
        let mut steps = 0usize;
        loop {
            let remaining = 2 * (capacity - disk.num_points() - 1) + disk.num_active();
            let pick = draws.next();
            let offsets = draws.offsets(radius, k);
            if !disk.tick(pick, &offsets) {
                break;
            }
            steps += 1;
            assert!(disk.num_points() + 1 <= capacity);
            assert!(2 * (capacity - disk.num_points() - 1) + disk.num_active() < remaining);
        }
        assert!(steps <= 2 * (capacity - 1) + 1);
        assert!(steps >= disk.num_points() + 1);
    }
}

#[test]
fn each_accepted_point_has_a_grid_cell_of_its_own() {
    let mut draws = Draws(77);
    let mut disk = PoissonDisk::new(120, 90, 7, 20, draws.next(), draws.next()).unwrap();
    loop {
        let pick = draws.next();
        let offsets = draws.offsets(7, 20);
        if !disk.tick(pick, &offsets) {
            break;
        }
    }
    let mut cells: Vec<(usize, usize)> =
        accepted(&disk).iter().map(|p| (cell_of(p.0, 7), cell_of(p.1, 7))).collect();
    let n = cells.len();
    assert!(n > 50);
    cells.sort();
    cells.dedup();
    assert_eq!(cells.len(), n);
}

#[test]
fn selected_is_the_point_that_tick_throws_from() {
    let mut disk = PoissonDisk::new(200, 200, 10, 3, HALF, HALF).unwrap();
    assert_eq!(disk.selected(0), Some(Point(100, 100)));
    assert_eq!(disk.selected(u32::MAX), Some(Point(100, 100)));
    assert!(disk.tick(0, &[off(20, 0), off(0, 20), off(-20, 0)]));
    // Four points: the draw is scaled by three.
    assert_eq!(disk.selected(0), Some(Point(100, 100)));
    assert_eq!(disk.selected(0x5555_5555), Some(Point(100, 100)));
    assert_eq!(disk.selected(0x5555_5556), Some(Point(120, 100)));
    assert_eq!(disk.selected(0xAAAA_AAAA), Some(Point(120, 100)));
    assert_eq!(disk.selected(0xAAAA_AAAB), Some(Point(100, 120)));
    assert_eq!(disk.selected(u32::MAX), Some(Point(100, 120)));
    // The throw lands 30 to the right of the selected point.
    assert!(disk.tick(0xAAAA_AAAB, &[off(30, 0)]));
    assert_eq!(disk.point_at_idx(3), Ok(Point(130, 120)));
}

#[test]
fn selected_is_none_on_an_empty_frontier() {
    let mut disk = PoissonDisk::new(10, 10, 100, 5, 0, 0).unwrap();
    assert_eq!(disk.selected(7), Some(Point(0, 0)));
    assert!(disk.tick(7, &[off(1, 1)]));
    assert_eq!(disk.selected(7), None);
    assert_eq!(disk.selected(0), None);
    assert!(!disk.tick(7, &[off(1, 1)]));
}
