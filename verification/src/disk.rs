//! The sampler: its storage, the background grid, and the step.

use crate::draw::scale;
use crate::error::{ConfigError, OutOfRange};
use crate::geometry::{
    candidate, dist2, distance_squared, grid_extent, lemma_dist2_symmetric,
    lemma_same_cell_within_radius, lemma_slot_bounds, lemma_slot_injective,
    lemma_within_radius_near_cells, location_of, shift, slot_of, Cell, Offset, Point,
};
use crate::lattice::{cell_index, cell_of, is_cell_of, MAX_COORD};
use crate::laws::{
    lemma_accept_valid, lemma_cell_in_grid, lemma_in_domain_bounds, lemma_initial_status,
    lemma_initial_valid, lemma_min_distance, lemma_offer, lemma_offer_all, lemma_retire_valid,
    lemma_samples_min_distance, lemma_status_after_accept, lemma_status_after_retire,
    lemma_status_map_write, lemma_status_outside, lemma_step_grows, lemma_step_keeps_config,
};
use crate::model::{config_refusal, seed_point, DiskView, MAX_AREA};
use vstd::prelude::*;

verus! {

/// A Poisson-disk sampler on a `width` by `height` domain.
pub struct PoissonDisk {
    width: u32,
    height: u32,
    radius: u32,
    num_samples: u32,
    seed: Point,
    cols: usize,
    rows: usize,
    /// The status of each location, row by row.
    cells: Vec<Cell>,
    /// The accepted point of each grid cell, row by row.
    grid: Vec<Option<Point>>,
    /// The frontier.
    active: Vec<Point>,
    samples: Vec<Point>,
}

impl View for PoissonDisk {
    type V = DiskView;

    closed spec fn view(&self) -> DiskView {
        DiskView {
            width: self.width as int,
            height: self.height as int,
            radius: self.radius as int,
            attempts: self.num_samples as int,
            seed: self.seed,
            samples: self.samples@,
            frontier: self.active@,
        }
    }
}

impl PoissonDisk {
    /// The grid holds exactly the accepted points, each in its own cell.
    spec fn grid_wf(&self) -> bool {
        &&& self.cols == grid_extent(self.width as int, self.radius as int)
        &&& self.rows == grid_extent(self.height as int, self.radius as int)
        &&& self.grid.len() == self.cols * self.rows
        &&& forall|i: int|
            0 <= i < self@.accepted().len() ==> self.grid@[slot_of(
                #[trigger] self@.accepted()[i],
                self.radius as int,
                self.cols as int,
            )] == Some(self@.accepted()[i])
        &&& forall|s: int|
            0 <= s < self.grid.len() ==> ((#[trigger] self.grid@[s]) matches Some(p)
                ==> self@.accepted().contains(p) && slot_of(
                p,
                self.radius as int,
                self.cols as int,
            ) == s)
    }

    /// The status map holds the status of every location.
    spec fn cells_wf(&self) -> bool {
        &&& self.cells.len() == self.width * self.height
        &&& forall|p: Point|
            self@.in_domain(p) ==> self.cells@[location_of(p, self.width as int)]
                == #[trigger] self@.status(p)
    }

    /// The sampler is in a state that construction and steps lead to.
    pub closed spec fn wf(&self) -> bool {
        &&& self@.valid()
        &&& self.grid_wf()
        &&& self.cells_wf()
    }

    /// What each cell of the background grid holds, row by row.
    pub closed spec fn grid_view(&self) -> Seq<Option<Point>> {
        self.grid@
    }

    /// What each location of the domain holds, row by row.
    pub closed spec fn status_view(&self) -> Seq<Cell> {
        self.cells@
    }

    /// The background grid of a well-formed sampler has one cell for each
    /// column and row of its extent, holds every accepted point in the cell of
    /// that point, and holds nothing else.
    pub proof fn lemma_grid_contents(&self)
        requires
            self.wf(),
        ensures
            self.grid_view().len() == self@.capacity(),
            forall|i: int|
                0 <= i < self@.accepted().len() ==> self.grid_view()[slot_of(
                    #[trigger] self@.accepted()[i],
                    self@.radius,
                    self@.cols(),
                )] == Some(self@.accepted()[i]),
            forall|s: int|
                0 <= s < self.grid_view().len() ==> ((#[trigger] self.grid_view()[s])
                    matches Some(p) ==> self@.accepted().contains(p) && slot_of(
                    p,
                    self@.radius,
                    self@.cols(),
                ) == s),
    {
    }

    /// The status map of a well-formed sampler has one entry for each location
    /// of the domain, and holds the status of each.
    pub proof fn lemma_status_contents(&self)
        requires
            self.wf(),
        ensures
            self.status_view().len() == self@.width * self@.height,
            forall|p: Point|
                self@.in_domain(p) ==> self.status_view()[location_of(p, self@.width)]
                    == #[trigger] self@.status(p),
    {
    }

    /// A well-formed sampler has a valid state, of which the laws of valid
    /// states hold.
    pub proof fn lemma_wf_valid(&self)
        requires
            self.wf(),
        ensures
            self@.valid(),
    {
    }

    /// Minimum distance: any two samples of a well-formed sampler lie farther
    /// apart than the radius, and each lies farther than the radius from the
    /// seed.
    pub proof fn lemma_min_distance(&self, i: int, j: int)
        requires
            self.wf(),
            0 <= i < self@.samples.len(),
            0 <= j < self@.samples.len(),
        ensures
            i != j ==> dist2(self@.samples[i], self@.samples[j]) > self@.radius * self@.radius,
            dist2(self@.seed, self@.samples[i]) > self@.radius * self@.radius,
    {
        if i != j {
            lemma_samples_min_distance(self@, i, j);
        }
        lemma_min_distance(self@, 0, i + 1);
    }

    /// A sampler of the given configuration, seeded at the point that the
    /// draws `u` and `v` select: `u` scaled by the width and `v` scaled by the
    /// height. The seed takes its grid cell, is active in the status map and is
    /// the whole frontier; there is no sample yet.
    ///
    /// A configuration is refused if the radius is zero, if no candidate is
    /// thrown per step, if the domain is empty, or if its area is above
    /// `MAX_AREA`.
    pub fn new(width: u32, height: u32, radius: u32, num_samples: u32, u: u32, v: u32) -> (r:
        Result<PoissonDisk, ConfigError>)
        ensures
            r is Err <==> config_refusal(
                width as int,
                height as int,
                radius as int,
                num_samples as int,
            ) is Some,
            r matches Err(e) ==> config_refusal(
                width as int,
                height as int,
                radius as int,
                num_samples as int,
            ) == Some(e),
            r matches Ok(d) ==> d.wf() && d@ == DiskView::initial(
                width as int,
                height as int,
                radius as int,
                num_samples as int,
                seed_point(u as int, v as int, width as int, height as int),
            ),
    {
        if radius == 0 {
            return Err(ConfigError::ZeroRadius);
        }
        if num_samples == 0 {
            return Err(ConfigError::ZeroSamples);
        }
        if width == 0 || height == 0 {
            return Err(ConfigError::EmptyDomain);
        }
        assert(width * height <= 0xFFFF_FFFF * 0xFFFF_FFFF) by (nonlinear_arith)
            requires
                0 <= width <= 0xFFFF_FFFF,
                0 <= height <= 0xFFFF_FFFF,
        ;
        if (width as u64) * (height as u64) > MAX_AREA as u64 {
            return Err(ConfigError::DomainTooLarge);
        }
        Ok(PoissonDisk::seeded(width, height, radius, num_samples, u, v))
    }

    /// The sampler right after construction, for a configuration that
    /// construction accepts.
    fn seeded(width: u32, height: u32, radius: u32, num_samples: u32, u: u32, v: u32) -> (d:
        PoissonDisk)
        requires
            config_refusal(width as int, height as int, radius as int, num_samples as int)
                is None,
        ensures
            d.wf(),
            d@ == DiskView::initial(
                width as int,
                height as int,
                radius as int,
                num_samples as int,
                seed_point(u as int, v as int, width as int, height as int),
            ),
    {
        assert(width <= width * height && height <= width * height) by (nonlinear_arith)
            requires
                width >= 1,
                height >= 1,
        ;
        let seed = Point(scale(u, width as usize), scale(v, height as usize));
        let cols: usize = cell_of(width as usize, radius) + 2;
        let rows: usize = cell_of(height as usize, radius) + 2;
        assert(cols * rows <= (2 * width + 2) * (2 * height + 2)) by (nonlinear_arith)
            requires
                0 <= cols <= 2 * width + 2,
                0 <= rows <= 2 * height + 2,
        ;
        assert((2 * width + 2) * (2 * height + 2) == 4 * (width * height) + 4 * width + 4 * height
            + 4) by (nonlinear_arith);
        let mut d = PoissonDisk {
            width,
            height,
            radius,
            num_samples,
            seed,
            cols,
            rows,
            cells: filled(Cell::EMPTY, (width as usize) * (height as usize)),
            grid: filled(None, cols * rows),
            active: Vec::new(),
            samples: Vec::new(),
        };
        let ghost start = DiskView::initial(
            width as int,
            height as int,
            radius as int,
            num_samples as int,
            seed,
        );
        let ghost blank = d.cells@;
        proof {
            lemma_cell_in_grid(start, seed);
            lemma_in_domain_bounds(start, seed);
        }
        d.insert_point(seed);
        d.active.push(seed);
        proof {
            assert(d@ =~= start);
            lemma_initial_valid(
                width as int,
                height as int,
                radius as int,
                num_samples as int,
                seed,
            );
            assert(d@.accepted() =~= seq![seed]);
            assert(d@.accepted()[0] == seed);
            assert(d.grid_wf());
            assert forall|p: Point| d@.in_domain(p) && p != seed implies blank[location_of(
                p,
                width as int,
            )] == #[trigger] d@.status(p) by {
                lemma_in_domain_bounds(start, p);
                lemma_initial_status(
                    width as int,
                    height as int,
                    radius as int,
                    num_samples as int,
                    seed,
                    p,
                );
            }
            lemma_initial_status(
                width as int,
                height as int,
                radius as int,
                num_samples as int,
                seed,
                seed,
            );
            lemma_status_map_write(blank, d@, seed);
        }
        d
    }

    /// Starts over: the configuration stays, and the state is that of a new
    /// sampler seeded by the draws `u` and `v`. The grid, the status map, the
    /// frontier and the samples of before are gone.
    pub fn reset(&mut self, u: u32, v: u32)
        requires
            old(self).wf(),
        ensures
            final(self).wf(),
            final(self)@ == DiskView::initial(
                old(self)@.width,
                old(self)@.height,
                old(self)@.radius,
                old(self)@.attempts,
                seed_point(u as int, v as int, old(self)@.width, old(self)@.height),
            ),
            old(self)@.same_config(final(self)@),
            final(self)@.samples.len() == 0,
    {
        *self = PoissonDisk::seeded(self.width, self.height, self.radius, self.num_samples, u, v);
    }

    /// The grid cell of a point of the domain lies in the grid.
    proof fn lemma_slot_in_grid(&self, p: Point)
        requires
            self@.config_valid(),
            self.grid_wf(),
            self@.in_domain(p),
        ensures
            is_cell_of(p.0 as int, self.radius as int, cell_index(p.0 as int, self.radius as int)),
            is_cell_of(p.1 as int, self.radius as int, cell_index(p.1 as int, self.radius as int)),
            0 <= cell_index(p.0 as int, self.radius as int) < self.cols - 1,
            0 <= cell_index(p.1 as int, self.radius as int) < self.rows - 1,
            0 <= slot_of(p, self.radius as int, self.cols as int) < self.grid.len(),
    {
        lemma_cell_in_grid(self@, p);
    }

    /// The grid cell in column `gx` and row `gy` holds no point within the
    /// radius of `p`.
    spec fn cell_clear(&self, gx: int, gy: int, p: Point) -> bool {
        self.grid@[gy * self.cols + gx] matches Some(q) ==> dist2(q, p) > self.radius
            * self.radius
    }

    /// Whether `point` may be accepted: it lies in the domain and farther than
    /// the radius from every accepted point. Only the grid cells at most two
    /// columns and two rows from the cell of `point` are looked at, both ends
    /// included; every accepted point within the radius lies in one of them.
    pub fn is_valid(&self, point: Point) -> (ok: bool)
        requires
            self.wf(),
        ensures
            ok == self@.admits(point),
    {
        if point.0 >= self.width as usize || point.1 >= self.height as usize {
            return false;
        }
        proof {
            self.lemma_slot_in_grid(point);
            lemma_in_domain_bounds(self@, point);
        }
        let cx = cell_of(point.0, self.radius);
        let cy = cell_of(point.1, self.radius);
        let x0: usize = if cx >= 2 {
            cx - 2
        } else {
            0
        };
        let y0: usize = if cy >= 2 {
            cy - 2
        } else {
            0
        };
        let x1: usize = if cx + 2 <= self.cols - 1 {
            cx + 2
        } else {
            self.cols - 1
        };
        let y1: usize = if cy + 2 <= self.rows - 1 {
            cy + 2
        } else {
            self.rows - 1
        };
        assert(self.radius * self.radius <= 0xFFFF_FFFF * 0xFFFF_FFFF) by (nonlinear_arith)
            requires
                0 <= self.radius <= 0xFFFF_FFFF,
        ;
        let limit: u64 = (self.radius as u64) * (self.radius as u64);
        let mut y: usize = y0;
        while y <= y1
            invariant
                self.wf(),
                self@.in_domain(point),
                point.0 <= MAX_COORD,
                point.1 <= MAX_COORD,
                limit == self.radius * self.radius,
                x0 <= x1 < self.cols,
                y0 <= y <= y1 + 1,
                y1 < self.rows,
                forall|gx: int, gy: int|
                    x0 <= gx <= x1 && y0 <= gy < y ==> #[trigger] self.cell_clear(gx, gy, point),
            decreases y1 + 1 - y,
        {
            let mut x: usize = x0;
            while x <= x1
                invariant
                    self.wf(),
                    self@.in_domain(point),
                    point.0 <= MAX_COORD,
                    point.1 <= MAX_COORD,
                    limit == self.radius * self.radius,
                    x0 <= x <= x1 + 1,
                    x1 < self.cols,
                    y0 <= y <= y1,
                    y1 < self.rows,
                    forall|gx: int, gy: int|
                        x0 <= gx <= x1 && y0 <= gy < y ==> #[trigger] self.cell_clear(
                            gx,
                            gy,
                            point,
                        ),
                    forall|gx: int| x0 <= gx < x ==> #[trigger] self.cell_clear(gx, y as int, point),
                decreases x1 + 1 - x,
            {
                proof {
                    lemma_slot_bounds(x as int, y as int, self.cols as int, self.rows as int);
                }
                let slot: usize = y * self.cols + x;
                match self.grid[slot] {
                    Some(q) => {
                        proof {
                            assert(self@.accepted().contains(q));
                            let i = choose|i: int|
                                0 <= i < self@.accepted().len() && self@.accepted()[i] == q;
                            assert(self@.in_domain(self@.accepted()[i]));
                            lemma_in_domain_bounds(self@, q);
                        }
                        if distance_squared(q, point) <= limit {
                            return false;
                        }
                    },
                    None => {},
                }
                x += 1;
            }
            y += 1;
        }
        proof {
            let r = self.radius as int;
            assert forall|i: int| 0 <= i < self@.accepted().len() implies dist2(
                #[trigger] self@.accepted()[i],
                point,
            ) > r * r by {
                let q = self@.accepted()[i];
                assert(self@.in_domain(q));
                self.lemma_slot_in_grid(q);
                let qx = cell_index(q.0 as int, r);
                let qy = cell_index(q.1 as int, r);
                if dist2(q, point) <= r * r {
                    lemma_dist2_symmetric(q, point);
                    lemma_within_radius_near_cells(point, q, r, cx as int, cy as int, qx, qy);
                    assert(self.cell_clear(qx, qy, point));
                }
            }
        }
        true
    }

    /// The candidate thrown from `origin` by `offset`: the shifted point,
    /// each coordinate clamped into the domain.
    pub fn new_point(&self, origin: Point, offset: Offset) -> (c: Point)
        requires
            self.wf(),
        ensures
            c == candidate(origin, offset, self@.width, self@.height),
            self@.in_domain(c),
    {
        Point(shift(origin.0, offset.dx, self.width), shift(origin.1, offset.dy, self.height))
    }

    /// Registers `point` in its grid cell and marks its location active. The
    /// samples and the frontier are left as they are.
    fn insert_point(&mut self, point: Point)
        requires
            old(self)@.config_valid(),
            old(self).cols == grid_extent(old(self).width as int, old(self).radius as int),
            old(self).rows == grid_extent(old(self).height as int, old(self).radius as int),
            old(self).grid.len() == old(self).cols * old(self).rows,
            old(self).cells.len() == old(self).width * old(self).height,
            old(self)@.in_domain(point),
            old(self).grid@[slot_of(point, old(self).radius as int, old(self).cols as int)]
                is None,
        ensures
            final(self).grid@ == old(self).grid@.update(
                slot_of(point, old(self).radius as int, old(self).cols as int),
                Some(point),
            ),
            final(self).cells@ == old(self).cells@.update(
                location_of(point, old(self).width as int),
                Cell::ACTIVE,
            ),
            final(self)@ == old(self)@,
            final(self).cols == old(self).cols,
            final(self).rows == old(self).rows,
    {
        proof {
            lemma_cell_in_grid(self@, point);
            lemma_in_domain_bounds(self@, point);
        }
        let cell_x = cell_of(point.0, self.radius);
        let cell_y = cell_of(point.1, self.radius);
        let idx: usize = point.1 * (self.width as usize) + point.0;
        self.cells[idx] = Cell::ACTIVE;
        let cell_idx: usize = cell_y * self.cols + cell_x;
        self.grid[cell_idx] = Some(point);
    }

    /// The grid cell of a point that the state admits holds no point, and no
    /// accepted point lies in it.
    proof fn lemma_admitted_cell_free(&self, point: Point)
        requires
            self.wf(),
            self@.admits(point),
        ensures
            self.grid@[slot_of(point, self.radius as int, self.cols as int)] is None,
            forall|i: int|
                0 <= i < self@.accepted().len() ==> slot_of(
                    #[trigger] self@.accepted()[i],
                    self.radius as int,
                    self.cols as int,
                ) != slot_of(point, self.radius as int, self.cols as int),
    {
        let r = self.radius as int;
        let cols = self.cols as int;
        self.lemma_slot_in_grid(point);
        assert forall|i: int| 0 <= i < self@.accepted().len() implies slot_of(
            #[trigger] self@.accepted()[i],
            r,
            cols,
        ) != slot_of(point, r, cols) by {
            let q = self@.accepted()[i];
            assert(self@.in_domain(q));
            self.lemma_slot_in_grid(q);
            if slot_of(q, r, cols) == slot_of(point, r, cols) {
                lemma_slot_injective(
                    cell_index(q.0 as int, r),
                    cell_index(q.1 as int, r),
                    cell_index(point.0 as int, r),
                    cell_index(point.1 as int, r),
                    cols,
                );
                lemma_same_cell_within_radius(
                    q,
                    point,
                    r,
                    cell_index(point.0 as int, r),
                    cell_index(point.1 as int, r),
                );
                assert(dist2(self@.accepted()[i], point) > r * r);
            }
        }
        if let Some(q) = self.grid@[slot_of(point, r, cols)] {
            assert(self@.accepted().contains(q));
            let k = choose|k: int| 0 <= k < self@.accepted().len() && self@.accepted()[k] == q;
            assert(slot_of(self@.accepted()[k], r, cols) != slot_of(point, r, cols));
        }
    }

    /// Accepts `point`: it is inserted, and joins the frontier and the
    /// samples.
    fn accept(&mut self, point: Point)
        requires
            old(self).wf(),
            old(self)@.admits(point),
        ensures
            final(self).wf(),
            final(self)@ == old(self)@.accept(point),
    {
        let ghost before = *self;
        let ghost r = self.radius as int;
        proof {
            before.lemma_admitted_cell_free(point);
            before.lemma_slot_in_grid(point);
            lemma_in_domain_bounds(before@, point);
            lemma_accept_valid(before@, point);
        }
        self.insert_point(point);
        self.active.push(point);
        self.samples.push(point);
        proof {
            let n = before@.accepted().len() as int;
            let slot = slot_of(point, r, self.cols as int);
            assert(self@ == before@.accept(point));
            assert(self@.accepted() == before@.accepted().push(point));
            assert forall|i: int| 0 <= i < self@.accepted().len() implies self.grid@[slot_of(
                #[trigger] self@.accepted()[i],
                r,
                self.cols as int,
            )] == Some(self@.accepted()[i]) by {
                if i < n {
                    let q = before@.accepted()[i];
                    assert(before@.in_domain(q));
                    before.lemma_slot_in_grid(q);
                }
            }
            assert forall|s: int| 0 <= s < self.grid.len() implies ((#[trigger] self.grid@[s])
                matches Some(p) ==> self@.accepted().contains(p) && slot_of(
                p,
                r,
                self.cols as int,
            ) == s) by {
                if s == slot {
                    assert(self@.accepted()[n] == point);
                } else {
                    if let Some(p) = before.grid@[s] {
                        assert(before@.accepted().contains(p));
                        let k = choose|k: int|
                            0 <= k < before@.accepted().len() && before@.accepted()[k] == p;
                        assert(self@.accepted()[k] == p);
                    }
                }
            }
            assert forall|p: Point| self@.in_domain(p) && p != point implies before.cells@[
                location_of(p, self.width as int)] == #[trigger] self@.status(p) by {
                lemma_in_domain_bounds(before@, p);
                lemma_status_after_accept(before@, point, p);
                assert(before.cells@[location_of(p, self.width as int)] == before@.status(p));
            }
            lemma_status_after_accept(before@, point, point);
            lemma_status_map_write(before.cells@, self@, point);
        }
    }

    /// Retires the frontier point at position `idx`: it leaves the frontier
    /// and its location becomes dead.
    fn retire(&mut self, idx: usize)
        requires
            old(self).wf(),
            idx < old(self)@.frontier.len(),
        ensures
            final(self).wf(),
            final(self)@ == old(self)@.retire(idx as int),
    {
        let ghost before = *self;
        let origin = self.active[idx];
        proof {
            assert(self@.accepted().contains(self@.frontier[idx as int]));
            let k = choose|k: int| 0 <= k < self@.accepted().len() && self@.accepted()[k] == origin;
            assert(self@.in_domain(self@.accepted()[k]));
            lemma_in_domain_bounds(self@, origin);
            lemma_retire_valid(self@, idx as int);
        }
        let location: usize = origin.1 * (self.width as usize) + origin.0;
        self.active.remove(idx);
        self.cells[location] = Cell::DEAD;
        proof {
            assert(self@ == before@.retire(idx as int));
            assert(self@.accepted() == before@.accepted());
            assert forall|p: Point| self@.in_domain(p) && p != origin implies before.cells@[
                location_of(p, self.width as int)] == #[trigger] self@.status(p) by {
                lemma_in_domain_bounds(before@, p);
                lemma_status_after_retire(before@, idx as int, p);
                assert(before.cells@[location_of(p, self.width as int)] == before@.status(p));
            }
            lemma_status_after_retire(before@, idx as int, origin);
            lemma_status_map_write(before.cells@, self@, origin);
        }
    }

    /// One step. With an empty frontier nothing changes and the result is
    /// `false`. Otherwise the draw `pick` selects a frontier point; the first
    /// `num_samples` of `offsets` are thrown from it, each accepted candidate
    /// joining the samples and the frontier at once; if none was accepted the
    /// selected point is retired; the result is `true`.
    pub fn tick(&mut self, pick: u32, offsets: &[Offset]) -> (more: bool)
        requires
            old(self).wf(),
        ensures
            final(self).wf(),
            final(self)@ == old(self)@.step(pick as int, offsets@),
            more == (old(self)@.frontier.len() > 0),
            old(self)@.same_config(final(self)@),
            old(self)@.extended_by(final(self)@),
    {
        proof {
            lemma_step_grows(self@, pick as int, offsets@);
            lemma_step_keeps_config(self@, pick as int, offsets@);
        }
        if self.active.is_empty() {
            return false;
        }
        let ghost before = self@;
        let ghost throws = before.throws(offsets@);
        let idx = scale(pick, self.active.len() - 1);
        let origin = self.active[idx];
        let n: usize = if offsets.len() <= self.num_samples as usize {
            offsets.len()
        } else {
            self.num_samples as usize
        };
        let mut found = false;
        let mut i: usize = 0;
        proof {
            lemma_offer_all(before, origin, throws.take(0));
        }
        while i < n
            invariant
                self.wf(),
                i <= n,
                n == throws.len(),
                n <= offsets.len(),
                throws == before.throws(offsets@),
                before.valid(),
                before.same_config(self@),
                self@ == before.offer_all(origin, throws.take(i as int)),
                found == (self@.samples.len() > before.samples.len()),
                self@.samples.len() >= before.samples.len(),
            decreases n - i,
        {
            let ghost mid = self@;
            let c = self.new_point(origin, offsets[i]);
            if self.is_valid(c) {
                self.accept(c);
                found = true;
            }
            proof {
                let next = throws.take(i as int + 1);
                assert(next.drop_last() =~= throws.take(i as int));
                assert(next.last() == offsets@[i as int]);
                assert(self@ == mid.offer(origin, offsets@[i as int]));
                lemma_offer(mid, origin, offsets@[i as int]);
            }
            i += 1;
        }
        proof {
            assert(throws.take(n as int) =~= throws);
            lemma_offer_all(before, origin, throws);
        }
        if !found {
            self.retire(idx);
        }
        true
    }

    /// The frontier point that the draw `pick` selects, and that a step with
    /// this draw throws from; `None` if the frontier is empty.
    pub fn selected(&self, pick: u32) -> (p: Option<Point>)
        ensures
            p == self@.selected(pick as int),
    {
        if self.active.is_empty() {
            None
        } else {
            Some(self.active[scale(pick, self.active.len() - 1)])
        }
    }

    /// What the location `point` holds.
    pub fn status_at(&self, point: Point) -> (c: Cell)
        requires
            self.wf(),
        ensures
            c == self@.status(point),
    {
        if point.0 < self.width as usize && point.1 < self.height as usize {
            proof {
                lemma_in_domain_bounds(self@, point);
            }
            self.cells[point.1 * (self.width as usize) + point.0]
        } else {
            proof {
                lemma_status_outside(self@, point);
            }
            Cell::EMPTY
        }
    }

    /// The width of the domain.
    pub fn width(&self) -> (w: u32)
        ensures
            w == self@.width,
    {
        self.width
    }

    /// The height of the domain.
    pub fn height(&self) -> (h: u32)
        ensures
            h == self@.height,
    {
        self.height
    }

    /// The least distance that accepted points must exceed.
    pub fn radius(&self) -> (r: u32)
        ensures
            r == self@.radius,
    {
        self.radius
    }

    /// The most candidates thrown in one step.
    pub fn num_samples(&self) -> (k: u32)
        ensures
            k == self@.attempts,
    {
        self.num_samples
    }

    /// The point that generation started from.
    pub fn seed(&self) -> (p: Point)
        ensures
            p == self@.seed,
    {
        self.seed
    }

    /// The number of samples.
    pub fn num_points(&self) -> (n: usize)
        ensures
            n == self@.samples.len(),
    {
        self.samples.len()
    }

    /// The number of points in the frontier.
    pub fn num_active(&self) -> (n: usize)
        ensures
            n == self@.frontier.len(),
    {
        self.active.len()
    }

    /// The sample at position `idx`, or the refusal of a position past the
    /// end.
    pub fn point_at_idx(&self, idx: usize) -> (r: Result<Point, OutOfRange>)
        ensures
            r == self@.sample_at(idx),
            r is Ok <==> idx < self@.samples.len(),
    {
        if idx < self.samples.len() {
            Ok(self.samples[idx])
        } else {
            Err(OutOfRange { index: idx, len: self.samples.len() })
        }
    }
}

/// A vector of `n` copies of `value`.
fn filled<T: Copy>(value: T, n: usize) -> (v: Vec<T>)
    ensures
        v@.len() == n,
        forall|i: int| 0 <= i < n ==> v@[i] == value,
{
    let mut v: Vec<T> = Vec::new();
    let mut i: usize = 0;
    while i < n
        invariant
            i <= n,
            v@.len() == i,
            forall|j: int| 0 <= j < i ==> v@[j] == value,
        decreases n - i,
    {
        v.push(value);
        i += 1;
    }
    v
}

} // verus!
