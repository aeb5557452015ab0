//! Laws of the sampler's states and steps.
//!
//! Construction gives a valid state, and a reset and every step keep a valid
//! state valid. What is proved here of valid states therefore holds of every
//! state that a sampler reaches: any two accepted points lie farther apart than
//! the radius, each has a grid cell of its own, and there are no more of them
//! than grid cells. Of steps it is proved that they keep the configuration and
//! the samples, that each one on a non-empty frontier accepts a point or
//! retires one, that no location comes back to life, and that only a bounded
//! number of steps find the frontier non-empty.

use crate::draw::lemma_scaled_bounds;
use crate::error::OutOfRange;
use crate::geometry::{
    candidate, dist2, lemma_dist2_symmetric, lemma_same_cell_within_radius, lemma_slot_bounds,
    lemma_slot_injective, location_of, slot_of, Cell, Offset, Point,
};
use crate::lattice::{
    cell_index, is_cell_of, lemma_cell_exists, lemma_cell_monotone, MAX_COORD,
};
use crate::model::{config_refusal, pick_index, seed_point, DiskView};
use vstd::prelude::*;
use vstd::set_lib::{lemma_int_range, lemma_len_subset, set_int_range};

verus! {

/// The seed that two draws select lies in the domain.
pub proof fn lemma_seed_in_domain(u: int, v: int, width: int, height: int)
    requires
        0 <= u < 0x1_0000_0000,
        0 <= v < 0x1_0000_0000,
        0 < width <= usize::MAX,
        0 < height <= usize::MAX,
    ensures
        seed_point(u, v, width, height).0 < width,
        seed_point(u, v, width, height).1 < height,
{
    lemma_scaled_bounds(u, width);
    lemma_scaled_bounds(v, height);
}

/// Construction gives a valid state: the state right after construction or a
/// reset, for a configuration that construction accepts and a seed in the
/// domain, is valid.
pub proof fn lemma_initial_valid(width: int, height: int, radius: int, attempts: int, seed: Point)
    requires
        config_refusal(width, height, radius, attempts) is None,
        0 <= width <= u32::MAX,
        0 <= height <= u32::MAX,
        0 <= radius <= u32::MAX,
        0 <= attempts <= u32::MAX,
        seed.0 < width,
        seed.1 < height,
    ensures
        DiskView::initial(width, height, radius, attempts, seed).valid(),
        DiskView::initial(width, height, radius, attempts, seed).samples.len() == 0,
        DiskView::initial(width, height, radius, attempts, seed).frontier.len() == 1,
{
    let s = DiskView::initial(width, height, radius, attempts, seed);
    assert(s.accepted() =~= seq![seed]);
    assert(s.frontier =~= seq![seed]);
    assert(s.accepted()[0] == seed);
    assert(s.accepted().contains(seed));
}

/// A point is at distance zero from itself.
pub proof fn lemma_dist2_self(p: Point)
    ensures
        dist2(p, p) == 0,
{
}

/// A point that a valid state admits is none of its accepted points.
pub proof fn lemma_admitted_is_new(s: DiskView, c: Point)
    requires
        s.valid(),
        s.admits(c),
    ensures
        !s.accepted().contains(c),
        !s.frontier.contains(c),
{
    assert(s.radius * s.radius >= 0) by (nonlinear_arith);
    if s.accepted().contains(c) {
        let i = choose|i: int| 0 <= i < s.accepted().len() && s.accepted()[i] == c;
        assert(dist2(s.accepted()[i], c) > s.radius * s.radius);
    }
    if s.frontier.contains(c) {
        let i = choose|i: int| 0 <= i < s.frontier.len() && s.frontier[i] == c;
        assert(s.accepted().contains(s.frontier[i]));
    }
}

/// Accepting a point that a valid state admits gives a valid state.
pub proof fn lemma_accept_valid(s: DiskView, c: Point)
    requires
        s.valid(),
        s.admits(c),
    ensures
        s.accept(c).valid(),
        s.accept(c).accepted() == s.accepted().push(c),
{
    let t = s.accept(c);
    let n = s.accepted().len() as int;
    assert(t.accepted() =~= s.accepted().push(c));
    lemma_admitted_is_new(s, c);
    assert forall|i: int| 0 <= i < t.accepted().len() implies t.in_domain(
        #[trigger] t.accepted()[i],
    ) by {
        if i < n {
            assert(s.in_domain(s.accepted()[i]));
        }
    }
    assert forall|i: int, j: int| 0 <= i < j < t.accepted().len() implies dist2(
        #[trigger] t.accepted()[i],
        #[trigger] t.accepted()[j],
    ) > t.radius * t.radius by {
        if j < n {
            assert(dist2(s.accepted()[i], s.accepted()[j]) > s.radius * s.radius);
        } else {
            assert(dist2(s.accepted()[i], c) > s.radius * s.radius);
        }
    }
    assert forall|i: int| 0 <= i < t.frontier.len() implies t.accepted().contains(
        #[trigger] t.frontier[i],
    ) by {
        if i < s.frontier.len() {
            let p = s.frontier[i];
            assert(s.accepted().contains(p));
            let k = choose|k: int| 0 <= k < s.accepted().len() && s.accepted()[k] == p;
            assert(t.accepted()[k] == p);
        } else {
            assert(t.accepted()[n] == c);
        }
    }
    assert forall|i: int, j: int|
        0 <= i < t.frontier.len() && 0 <= j < t.frontier.len() && i != j implies t.frontier[i]
        != t.frontier[j] by {
        if i < s.frontier.len() && j < s.frontier.len() {
        } else if i < s.frontier.len() {
            assert(s.frontier.contains(s.frontier[i]));
        } else {
            assert(s.frontier.contains(s.frontier[j]));
        }
    }
}

/// A candidate lies in the domain, wherever it was thrown from.
pub proof fn lemma_candidate_in_domain(s: DiskView, origin: Point, offset: Offset)
    requires
        s.config_valid(),
    ensures
        s.in_domain(candidate(origin, offset, s.width, s.height)),
{
}

/// One throw keeps a valid state valid, keeps the configuration, and keeps
/// every sample and every frontier point where it is.
pub proof fn lemma_offer(s: DiskView, origin: Point, offset: Offset)
    requires
        s.valid(),
    ensures
        s.offer(origin, offset).valid(),
        s.same_config(s.offer(origin, offset)),
        s.extended_by(s.offer(origin, offset)),
        s.frontier.len() <= s.offer(origin, offset).frontier.len(),
        s.offer(origin, offset).frontier.take(s.frontier.len() as int) == s.frontier,
        s.offer(origin, offset).frontier.len() - s.frontier.len() == s.offer(
            origin,
            offset,
        ).samples.len() - s.samples.len(),
{
    let c = candidate(origin, offset, s.width, s.height);
    let t = s.offer(origin, offset);
    if s.admits(c) {
        lemma_accept_valid(s, c);
    }
    assert(t.samples.take(s.samples.len() as int) =~= s.samples);
    assert(t.frontier.take(s.frontier.len() as int) =~= s.frontier);
}

/// A run of throws keeps a valid state valid, keeps the configuration, and
/// keeps every sample and every frontier point where it is; the frontier grows
/// by as many points as the samples do.
pub proof fn lemma_offer_all(s: DiskView, origin: Point, offsets: Seq<Offset>)
    requires
        s.valid(),
    ensures
        s.offer_all(origin, offsets).valid(),
        s.same_config(s.offer_all(origin, offsets)),
        s.extended_by(s.offer_all(origin, offsets)),
        s.frontier.len() <= s.offer_all(origin, offsets).frontier.len(),
        s.offer_all(origin, offsets).frontier.take(s.frontier.len() as int) == s.frontier,
        s.offer_all(origin, offsets).frontier.len() - s.frontier.len() == s.offer_all(
            origin,
            offsets,
        ).samples.len() - s.samples.len(),
    decreases offsets.len(),
{
    let t = s.offer_all(origin, offsets);
    if offsets.len() == 0 {
        assert(t.samples.take(s.samples.len() as int) =~= s.samples);
        assert(t.frontier.take(s.frontier.len() as int) =~= s.frontier);
    } else {
        let m = s.offer_all(origin, offsets.drop_last());
        lemma_offer_all(s, origin, offsets.drop_last());
        lemma_offer(m, origin, offsets.last());
        assert(t.samples.take(s.samples.len() as int) =~= m.samples.take(
            s.samples.len() as int,
        ));
        assert(t.frontier.take(s.frontier.len() as int) =~= m.frontier.take(
            s.frontier.len() as int,
        ));
    }
}

/// Retiring a frontier point keeps a valid state valid.
pub proof fn lemma_retire_valid(s: DiskView, i: int)
    requires
        s.valid(),
        0 <= i < s.frontier.len(),
    ensures
        s.retire(i).valid(),
        !s.retire(i).frontier.contains(s.frontier[i]),
{
    let t = s.retire(i);
    assert(t.accepted() == s.accepted());
    assert forall|k: int| 0 <= k < t.frontier.len() implies t.accepted().contains(
        #[trigger] t.frontier[k],
    ) by {
        if k < i {
            assert(t.frontier[k] == s.frontier[k]);
        } else {
            assert(t.frontier[k] == s.frontier[k + 1]);
        }
    }
    assert forall|a: int, b: int|
        0 <= a < t.frontier.len() && 0 <= b < t.frontier.len() && a != b implies t.frontier[a]
        != t.frontier[b] by {
        let a0 = if a < i {
            a
        } else {
            a + 1
        };
        let b0 = if b < i {
            b
        } else {
            b + 1
        };
        assert(t.frontier[a] == s.frontier[a0]);
        assert(t.frontier[b] == s.frontier[b0]);
    }
    if t.frontier.contains(s.frontier[i]) {
        let k = choose|k: int| 0 <= k < t.frontier.len() && t.frontier[k] == s.frontier[i];
        let k0 = if k < i {
            k
        } else {
            k + 1
        };
        assert(t.frontier[k] == s.frontier[k0]);
    }
}

/// The position that a draw selects lies in the frontier.
pub proof fn lemma_pick_in_frontier(pick: int, len: int)
    requires
        0 <= pick < 0x1_0000_0000,
        0 < len,
    ensures
        0 <= pick_index(pick, len) < len,
        len > 1 ==> pick_index(pick, len) < len - 1,
{
    lemma_scaled_bounds(pick, len - 1);
}

/// Every step keeps a valid state valid.
pub proof fn lemma_step_valid(s: DiskView, pick: int, offsets: Seq<Offset>)
    requires
        s.valid(),
        0 <= pick < 0x1_0000_0000,
    ensures
        s.step(pick, offsets).valid(),
{
    if s.frontier.len() > 0 {
        let i = pick_index(pick, s.frontier.len() as int);
        lemma_pick_in_frontier(pick, s.frontier.len() as int);
        let thrown = s.offer_all(s.frontier[i], s.throws(offsets));
        lemma_offer_all(s, s.frontier[i], s.throws(offsets));
        if thrown.samples.len() == s.samples.len() {
            lemma_retire_valid(thrown, i);
        }
    }
}

/// Minimum distance: in a valid state any two distinct accepted points, the
/// seed among them, lie farther apart than the radius.
pub proof fn lemma_min_distance(s: DiskView, i: int, j: int)
    requires
        s.valid(),
        0 <= i < s.accepted().len(),
        0 <= j < s.accepted().len(),
        i != j,
    ensures
        dist2(s.accepted()[i], s.accepted()[j]) > s.radius * s.radius,
        s.accepted()[i] != s.accepted()[j],
{
    if i < j {
        assert(dist2(s.accepted()[i], s.accepted()[j]) > s.radius * s.radius);
    } else {
        assert(dist2(s.accepted()[j], s.accepted()[i]) > s.radius * s.radius);
        lemma_dist2_symmetric(s.accepted()[i], s.accepted()[j]);
    }
    assert(s.radius * s.radius >= 0) by (nonlinear_arith);
    if s.accepted()[i] == s.accepted()[j] {
        lemma_dist2_self(s.accepted()[i]);
    }
}

/// Minimum distance among the samples: in a valid state any two samples at
/// different positions lie farther apart than the radius.
pub proof fn lemma_samples_min_distance(s: DiskView, i: int, j: int)
    requires
        s.valid(),
        0 <= i < s.samples.len(),
        0 <= j < s.samples.len(),
        i != j,
    ensures
        dist2(s.samples[i], s.samples[j]) > s.radius * s.radius,
{
    lemma_min_distance(s, i + 1, j + 1);
}

/// A step changes no configuration value and not the seed.
pub proof fn lemma_step_keeps_config(s: DiskView, pick: int, offsets: Seq<Offset>)
    requires
        s.valid(),
    ensures
        s.same_config(s.step(pick, offsets)),
        s.seed == s.step(pick, offsets).seed,
{
    if s.frontier.len() > 0 {
        let i = pick_index(pick, s.frontier.len() as int);
        lemma_offer_all(s, s.frontier[i], s.throws(offsets));
    }
}

/// Monotonic growth: a step removes no sample and moves none; the samples
/// before the step are the first samples after it.
pub proof fn lemma_step_grows(s: DiskView, pick: int, offsets: Seq<Offset>)
    requires
        s.valid(),
    ensures
        s.extended_by(s.step(pick, offsets)),
        s.samples.len() <= s.step(pick, offsets).samples.len(),
{
    if s.frontier.len() > 0 {
        let i = pick_index(pick, s.frontier.len() as int);
        lemma_offer_all(s, s.frontier[i], s.throws(offsets));
    } else {
        assert(s.samples.take(s.samples.len() as int) =~= s.samples);
    }
}

/// Progress: a step on a non-empty frontier either accepts at least one point,
/// or retires exactly the selected point and accepts none.
pub proof fn lemma_step_progress(s: DiskView, pick: int, offsets: Seq<Offset>)
    requires
        s.valid(),
        0 <= pick < 0x1_0000_0000,
        s.frontier.len() > 0,
    ensures
        ({
            let t = s.step(pick, offsets);
            let i = pick_index(pick, s.frontier.len() as int);
            ||| (t.samples.len() > s.samples.len() && t.frontier.len() > s.frontier.len())
            ||| (t.samples == s.samples && t.frontier == s.frontier.remove(i))
        }),
{
    let i = pick_index(pick, s.frontier.len() as int);
    lemma_pick_in_frontier(pick, s.frontier.len() as int);
    let thrown = s.offer_all(s.frontier[i], s.throws(offsets));
    lemma_offer_all(s, s.frontier[i], s.throws(offsets));
    if thrown.samples.len() == s.samples.len() {
        assert(thrown.samples =~= thrown.samples.take(s.samples.len() as int));
        assert(thrown.frontier =~= thrown.frontier.take(s.frontier.len() as int));
    }
}

/// A step on an empty frontier changes nothing: a converged sampler stays as
/// it is.
pub proof fn lemma_step_converged(s: DiskView, pick: int, offsets: Seq<Offset>)
    requires
        s.frontier.len() == 0,
    ensures
        s.step(pick, offsets) == s,
{
}

/// Accepting a point makes its location active and changes no other status.
pub proof fn lemma_status_after_accept(s: DiskView, c: Point, p: Point)
    requires
        s.valid(),
        s.admits(c),
    ensures
        s.accept(c).status(c) == Cell::ACTIVE,
        s.status(c) == Cell::EMPTY,
        p != c ==> s.accept(c).status(p) == s.status(p),
{
    let t = s.accept(c);
    lemma_admitted_is_new(s, c);
    lemma_accept_valid(s, c);
    assert(t.frontier[s.frontier.len() as int] == c);
    if p != c {
        if s.frontier.contains(p) {
            let i = choose|i: int| 0 <= i < s.frontier.len() && s.frontier[i] == p;
            assert(t.frontier[i] == p);
        }
        if t.frontier.contains(p) {
            let i = choose|i: int| 0 <= i < t.frontier.len() && t.frontier[i] == p;
            assert(s.frontier[i] == p);
        }
        if s.accepted().contains(p) {
            let i = choose|i: int| 0 <= i < s.accepted().len() && s.accepted()[i] == p;
            assert(t.accepted()[i] == p);
        }
        if t.accepted().contains(p) {
            let i = choose|i: int| 0 <= i < t.accepted().len() && t.accepted()[i] == p;
            assert(s.accepted()[i] == p);
        }
    }
}

/// Retiring a frontier point makes its location dead and changes no other
/// status.
pub proof fn lemma_status_after_retire(s: DiskView, i: int, p: Point)
    requires
        s.valid(),
        0 <= i < s.frontier.len(),
    ensures
        s.status(s.frontier[i]) == Cell::ACTIVE,
        s.retire(i).status(s.frontier[i]) == Cell::DEAD,
        p != s.frontier[i] ==> s.retire(i).status(p) == s.status(p),
{
    let t = s.retire(i);
    lemma_retire_valid(s, i);
    assert(t.accepted() == s.accepted());
    assert(s.frontier.contains(s.frontier[i]));
    assert(s.accepted().contains(s.frontier[i]));
    if p != s.frontier[i] {
        if s.frontier.contains(p) {
            let k = choose|k: int| 0 <= k < s.frontier.len() && s.frontier[k] == p;
            let k1 = if k < i {
                k
            } else {
                k - 1
            };
            assert(t.frontier[k1] == p);
        }
        if t.frontier.contains(p) {
            let k = choose|k: int| 0 <= k < t.frontier.len() && t.frontier[k] == p;
            let k0 = if k < i {
                k
            } else {
                k + 1
            };
            assert(s.frontier[k0] == p);
        }
    }
}

/// A location outside the domain of a valid state is empty.
pub proof fn lemma_status_outside(s: DiskView, p: Point)
    requires
        s.valid(),
        !s.in_domain(p),
    ensures
        s.status(p) == Cell::EMPTY,
{
    if s.accepted().contains(p) {
        let k = choose|k: int| 0 <= k < s.accepted().len() && s.accepted()[k] == p;
        assert(s.in_domain(s.accepted()[k]));
    }
    if s.frontier.contains(p) {
        let k = choose|k: int| 0 <= k < s.frontier.len() && s.frontier[k] == p;
        assert(s.accepted().contains(s.frontier[k]));
    }
}

/// One throw empties no location and revives none: what was dead stays dead,
/// and what was active stays active.
pub proof fn lemma_offer_status(s: DiskView, origin: Point, offset: Offset, p: Point)
    requires
        s.valid(),
    ensures
        s.status(p) != Cell::EMPTY ==> s.offer(origin, offset).status(p) == s.status(p),
{
    let c = candidate(origin, offset, s.width, s.height);
    if s.admits(c) {
        lemma_status_after_accept(s, c, p);
    }
}

/// A run of throws empties no location and revives none.
pub proof fn lemma_offer_all_status(s: DiskView, origin: Point, offsets: Seq<Offset>, p: Point)
    requires
        s.valid(),
    ensures
        s.status(p) != Cell::EMPTY ==> s.offer_all(origin, offsets).status(p) == s.status(p),
    decreases offsets.len(),
{
    if offsets.len() > 0 {
        let m = s.offer_all(origin, offsets.drop_last());
        lemma_offer_all(s, origin, offsets.drop_last());
        lemma_offer_all_status(s, origin, offsets.drop_last(), p);
        lemma_offer_status(m, origin, offsets.last(), p);
    }
}

/// The life of a location: a step leaves a dead location dead, and an active
/// one active or dead. No location returns to empty, and none returns to
/// active.
pub proof fn lemma_step_status(s: DiskView, pick: int, offsets: Seq<Offset>, p: Point)
    requires
        s.valid(),
        0 <= pick < 0x1_0000_0000,
    ensures
        s.status(p) == Cell::DEAD ==> s.step(pick, offsets).status(p) == Cell::DEAD,
        s.status(p) == Cell::ACTIVE ==> s.step(pick, offsets).status(p) != Cell::EMPTY,
{
    if s.frontier.len() > 0 {
        let i = pick_index(pick, s.frontier.len() as int);
        lemma_pick_in_frontier(pick, s.frontier.len() as int);
        let thrown = s.offer_all(s.frontier[i], s.throws(offsets));
        lemma_offer_all(s, s.frontier[i], s.throws(offsets));
        lemma_offer_all_status(s, s.frontier[i], s.throws(offsets), p);
        if thrown.samples.len() == s.samples.len() {
            lemma_status_after_retire(thrown, i, p);
        }
    }
}

/// A point of a valid domain has coordinates below the largest area.
pub proof fn lemma_in_domain_bounds(s: DiskView, p: Point)
    requires
        s.config_valid(),
        s.in_domain(p),
    ensures
        p.0 < MAX_COORD,
        p.1 < MAX_COORD,
        0 <= location_of(p, s.width) < s.width * s.height,
{
    assert(s.width <= s.width * s.height && s.height <= s.width * s.height) by (nonlinear_arith)
        requires
            s.width >= 1,
            s.height >= 1,
    ;
    lemma_slot_bounds(p.0 as int, p.1 as int, s.width, s.height);
}

/// The grid cell of a point of the domain lies in the grid, and not in its
/// last column or row.
pub proof fn lemma_cell_in_grid(s: DiskView, p: Point)
    requires
        s.config_valid(),
        s.in_domain(p),
    ensures
        is_cell_of(p.0 as int, s.radius, cell_index(p.0 as int, s.radius)),
        is_cell_of(p.1 as int, s.radius, cell_index(p.1 as int, s.radius)),
        0 <= cell_index(p.0 as int, s.radius) < s.cols() - 1,
        0 <= cell_index(p.1 as int, s.radius) < s.rows() - 1,
        0 <= slot_of(p, s.radius, s.cols()) < s.capacity(),
{
    let r = s.radius;
    lemma_cell_exists(p.0 as int, r);
    lemma_cell_exists(p.1 as int, r);
    lemma_cell_exists(s.width, r);
    lemma_cell_exists(s.height, r);
    lemma_cell_monotone(p.0 as int, s.width, r, cell_index(p.0 as int, r), cell_index(s.width, r));
    lemma_cell_monotone(
        p.1 as int,
        s.height,
        r,
        cell_index(p.1 as int, r),
        cell_index(s.height, r),
    );
    lemma_slot_bounds(cell_index(p.0 as int, r), cell_index(p.1 as int, r), s.cols(), s.rows());
}

/// Two accepted points of a valid state lie in different grid cells.
pub proof fn lemma_one_point_per_cell(s: DiskView, i: int, j: int)
    requires
        s.valid(),
        0 <= i < s.accepted().len(),
        0 <= j < s.accepted().len(),
        i != j,
    ensures
        slot_of(s.accepted()[i], s.radius, s.cols()) != slot_of(
            s.accepted()[j],
            s.radius,
            s.cols(),
        ),
{
    let a = s.accepted()[i];
    let b = s.accepted()[j];
    let r = s.radius;
    assert(s.in_domain(a) && s.in_domain(b));
    lemma_cell_in_grid(s, a);
    lemma_cell_in_grid(s, b);
    lemma_min_distance(s, i, j);
    if slot_of(a, r, s.cols()) == slot_of(b, r, s.cols()) {
        lemma_slot_injective(
            cell_index(a.0 as int, r),
            cell_index(a.1 as int, r),
            cell_index(b.0 as int, r),
            cell_index(b.1 as int, r),
            s.cols(),
        );
        lemma_same_cell_within_radius(
            a,
            b,
            r,
            cell_index(a.0 as int, r),
            cell_index(a.1 as int, r),
        );
    }
}

/// Capacity: a valid state holds at most as many accepted points as the grid
/// has cells.
pub proof fn lemma_capacity(s: DiskView)
    requires
        s.valid(),
    ensures
        s.accepted().len() <= s.capacity(),
{
    let n = s.accepted().len();
    let slots = Seq::new(n, |i: int| slot_of(s.accepted()[i], s.radius, s.cols()));
    assert forall|i: int, j: int| 0 <= i < n && 0 <= j < n && i != j implies slots[i]
        != slots[j] by {
        lemma_one_point_per_cell(s, i, j);
    }
    slots.unique_seq_to_set();
    assert(s.in_domain(s.accepted()[0]));
    lemma_cell_in_grid(s, s.accepted()[0]);
    lemma_int_range(0, s.capacity());
    assert forall|k: int| slots.to_set().contains(k) implies set_int_range(
        0,
        s.capacity(),
    ).contains(k) by {
        let i = choose|i: int| 0 <= i < slots.len() && slots[i] == k;
        assert(s.in_domain(s.accepted()[i]));
        lemma_cell_in_grid(s, s.accepted()[i]);
    }
    lemma_len_subset(slots.to_set(), set_int_range(0, s.capacity()));
}

/// Termination: the bound on the steps still to come is never negative, and
/// every step that finds the frontier non-empty lowers it. So of the steps
/// taken from a valid state, at most `remaining()` report `true`.
pub proof fn lemma_step_lowers_remaining(s: DiskView, pick: int, offsets: Seq<Offset>)
    requires
        s.valid(),
        0 <= pick < 0x1_0000_0000,
        s.frontier.len() > 0,
    ensures
        0 <= s.step(pick, offsets).remaining() < s.remaining(),
{
    let t = s.step(pick, offsets);
    lemma_step_valid(s, pick, offsets);
    lemma_step_progress(s, pick, offsets);
    lemma_step_keeps_config(s, pick, offsets);
    lemma_capacity(t);
    assert(t.capacity() == s.capacity());
    let i = pick_index(pick, s.frontier.len() as int);
    lemma_pick_in_frontier(pick, s.frontier.len() as int);
    lemma_offer_all(s, s.frontier[i], s.throws(offsets));
}

/// A radius that spans the domain: a valid state whose radius is at least the
/// diagonal of its domain admits no point.
pub proof fn lemma_spanning_radius_admits_nothing(s: DiskView, p: Point)
    requires
        s.valid(),
        (s.width - 1) * (s.width - 1) + (s.height - 1) * (s.height - 1) <= s.radius * s.radius,
    ensures
        !s.admits(p),
{
    if s.in_domain(p) {
        let q = s.accepted()[0];
        assert(s.in_domain(q));
        let dx = q.0 - p.0;
        let dy = q.1 - p.1;
        let w = s.width - 1;
        let h = s.height - 1;
        assert(dx * dx <= w * w) by (nonlinear_arith)
            requires
                -w <= dx <= w,
        ;
        assert(dy * dy <= h * h) by (nonlinear_arith)
            requires
                -h <= dy <= h,
        ;
        assert(dist2(q, p) <= s.radius * s.radius);
    }
}

/// With a radius that spans the domain no run of throws accepts a point.
pub proof fn lemma_spanning_radius_offer_all(s: DiskView, origin: Point, offsets: Seq<Offset>)
    requires
        s.valid(),
        (s.width - 1) * (s.width - 1) + (s.height - 1) * (s.height - 1) <= s.radius * s.radius,
    ensures
        s.offer_all(origin, offsets) == s,
    decreases offsets.len(),
{
    if offsets.len() > 0 {
        lemma_spanning_radius_offer_all(s, origin, offsets.drop_last());
        lemma_spanning_radius_admits_nothing(
            s,
            candidate(origin, offsets.last(), s.width, s.height),
        );
    }
}

/// With a radius that spans the domain every step on a non-empty frontier
/// retires the selected point, whatever is thrown.
pub proof fn lemma_spanning_radius_step(s: DiskView, pick: int, offsets: Seq<Offset>)
    requires
        s.valid(),
        (s.width - 1) * (s.width - 1) + (s.height - 1) * (s.height - 1) <= s.radius * s.radius,
        s.frontier.len() > 0,
    ensures
        s.step(pick, offsets) == s.retire(pick_index(pick, s.frontier.len() as int)),
{
    let i = pick_index(pick, s.frontier.len() as int);
    lemma_spanning_radius_offer_all(s, s.frontier[i], s.throws(offsets));
}

/// Right after construction the seed's location is active and every other
/// location is empty.
pub proof fn lemma_initial_status(
    width: int,
    height: int,
    radius: int,
    attempts: int,
    seed: Point,
    p: Point,
)
    ensures
        DiskView::initial(width, height, radius, attempts, seed).status(seed) == Cell::ACTIVE,
        p != seed ==> DiskView::initial(width, height, radius, attempts, seed).status(p)
            == Cell::EMPTY,
{
    let s = DiskView::initial(width, height, radius, attempts, seed);
    assert(s.accepted() =~= seq![seed]);
    assert(s.frontier =~= seq![seed]);
    assert(s.frontier[0] == seed);
}

/// One write mends a status map: if a map stored row by row holds the status
/// of every location of the domain but perhaps that of `c`, then with the
/// status of `c` written at the place of `c` it holds the status of every
/// location.
pub proof fn lemma_status_map_write(cells: Seq<Cell>, t: DiskView, c: Point)
    requires
        t.config_valid(),
        t.in_domain(c),
        cells.len() == t.width * t.height,
        forall|p: Point|
            t.in_domain(p) && p != c ==> cells[location_of(p, t.width)] == #[trigger] t.status(p),
    ensures
        forall|p: Point|
            t.in_domain(p) ==> cells.update(location_of(c, t.width), t.status(c))[location_of(
                p,
                t.width,
            )] == #[trigger] t.status(p),
{
    lemma_in_domain_bounds(t, c);
    assert forall|p: Point| t.in_domain(p) implies cells.update(
        location_of(c, t.width),
        t.status(c),
    )[location_of(p, t.width)] == #[trigger] t.status(p) by {
        lemma_in_domain_bounds(t, p);
        if p != c && location_of(p, t.width) == location_of(c, t.width) {
            lemma_slot_injective(p.0 as int, p.1 as int, c.0 as int, c.1 as int, t.width);
        }
    }
}

/// Read stability: a lookup depends on the samples alone, so two lookups of
/// one position with no step or reset between them give one result.
pub proof fn lemma_lookup_stable(a: DiskView, b: DiskView, idx: usize)
    requires
        a.samples == b.samples,
    ensures
        a.sample_at(idx) == b.sample_at(idx),
{
}

/// Bounds checking: the position just past the last sample is refused, and so
/// is every later one.
pub proof fn lemma_lookup_past_end(s: DiskView, idx: usize)
    requires
        idx >= s.samples.len(),
        s.samples.len() <= usize::MAX,
    ensures
        s.sample_at(idx) == Err::<Point, OutOfRange>(
            (OutOfRange { index: idx, len: s.samples.len() as usize }),
        ),
        s.sample_at(s.samples.len() as usize) is Err,
{
}

} // verus!
