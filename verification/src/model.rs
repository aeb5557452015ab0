//! The sampler as a mathematical object: its configuration, the points it has
//! accepted and its frontier, together with the step as a function from state
//! and draws to state.

use crate::draw::scaled;
use crate::error::{ConfigError, OutOfRange};
use crate::geometry::{candidate, dist2, grid_extent, Cell, Offset, Point};
use vstd::prelude::*;

verus! {

/// The largest domain area that a sampler accepts.
pub const MAX_AREA: usize = 16_777_216;

/// What a sampler is, apart from how it is stored.
pub struct DiskView {
    /// The number of columns of the domain.
    pub width: int,
    /// The number of rows of the domain.
    pub height: int,
    /// The least distance that two accepted points must exceed.
    pub radius: int,
    /// The most candidates thrown in one step.
    pub attempts: int,
    /// The point that generation starts from. It is accepted but not listed
    /// among the samples.
    pub seed: Point,
    /// The points accepted by steps, in the order of their acceptance.
    pub samples: Seq<Point>,
    /// The accepted points that may still be thrown from.
    pub frontier: Seq<Point>,
}

/// The first point of a sampler, from two draws.
pub open spec fn seed_point(u: int, v: int, width: int, height: int) -> Point {
    Point(scaled(u, width) as usize, scaled(v, height) as usize)
}

/// The position in a frontier of `len` points that the draw `pick` selects:
/// the draw scaled by `len - 1`, so that the last point is selected only when
/// it is the only one.
pub open spec fn pick_index(pick: int, len: int) -> int {
    scaled(pick, len - 1)
}

/// Why construction refuses a configuration, if it does. Of several reasons
/// the first in this order is given: a zero radius, no throws per step, an
/// empty domain, too large a domain.
pub open spec fn config_refusal(width: int, height: int, radius: int, attempts: int) -> Option<
    ConfigError,
> {
    if radius == 0 {
        Some(ConfigError::ZeroRadius)
    } else if attempts == 0 {
        Some(ConfigError::ZeroSamples)
    } else if width == 0 || height == 0 {
        Some(ConfigError::EmptyDomain)
    } else if width * height > MAX_AREA {
        Some(ConfigError::DomainTooLarge)
    } else {
        None
    }
}

impl DiskView {
    /// The state right after construction or a reset.
    pub open spec fn initial(width: int, height: int, radius: int, attempts: int, seed: Point)
        -> DiskView {
        DiskView {
            width,
            height,
            radius,
            attempts,
            seed,
            samples: Seq::empty(),
            frontier: seq![seed],
        }
    }

    /// Every accepted point: the seed, then the samples.
    pub open spec fn accepted(self) -> Seq<Point> {
        seq![self.seed] + self.samples
    }

    /// `p` lies in the domain.
    pub open spec fn in_domain(self, p: Point) -> bool {
        p.0 < self.width && p.1 < self.height
    }

    /// `p` lies farther than the radius from every accepted point.
    pub open spec fn clear_of_all(self, p: Point) -> bool {
        forall|i: int|
            0 <= i < self.accepted().len() ==> dist2(#[trigger] self.accepted()[i], p)
                > self.radius * self.radius
    }

    /// `p` may be accepted: it lies in the domain, farther than the radius
    /// from every accepted point.
    pub open spec fn admits(self, p: Point) -> bool {
        self.in_domain(p) && self.clear_of_all(p)
    }

    /// The configuration is one that construction accepts.
    pub open spec fn config_valid(self) -> bool {
        &&& 0 < self.width <= u32::MAX
        &&& 0 < self.height <= u32::MAX
        &&& self.width * self.height <= MAX_AREA
        &&& 0 < self.radius <= u32::MAX
        &&& 0 < self.attempts <= u32::MAX
    }

    /// Any two accepted points lie farther apart than the radius.
    pub open spec fn separated(self) -> bool {
        forall|i: int, j: int|
            0 <= i < j < self.accepted().len() ==> dist2(
                #[trigger] self.accepted()[i],
                #[trigger] self.accepted()[j],
            ) > self.radius * self.radius
    }

    /// What holds of every state that a sampler reaches.
    pub open spec fn valid(self) -> bool {
        &&& self.config_valid()
        &&& forall|i: int|
            0 <= i < self.accepted().len() ==> self.in_domain(#[trigger] self.accepted()[i])
        &&& self.separated()
        &&& forall|i: int|
            0 <= i < self.frontier.len() ==> self.accepted().contains(#[trigger] self.frontier[i])
        &&& self.frontier.no_duplicates()
    }

    /// What the location `p` holds.
    pub open spec fn status(self, p: Point) -> Cell {
        if self.frontier.contains(p) {
            Cell::ACTIVE
        } else if self.accepted().contains(p) {
            Cell::DEAD
        } else {
            Cell::EMPTY
        }
    }

    /// The state after `p` was accepted: it is a sample and in the frontier.
    pub open spec fn accept(self, p: Point) -> DiskView {
        DiskView { samples: self.samples.push(p), frontier: self.frontier.push(p), ..self }
    }

    /// The state after one throw from `origin`: the candidate is accepted if
    /// the state admits it, and dropped otherwise.
    pub open spec fn offer(self, origin: Point, offset: Offset) -> DiskView {
        let c = candidate(origin, offset, self.width, self.height);
        if self.admits(c) {
            self.accept(c)
        } else {
            self
        }
    }

    /// The state after the throws `offsets` from `origin`, one after another.
    pub open spec fn offer_all(self, origin: Point, offsets: Seq<Offset>) -> DiskView
        decreases offsets.len(),
    {
        if offsets.len() == 0 {
            self
        } else {
            self.offer_all(origin, offsets.drop_last()).offer(origin, offsets.last())
        }
    }

    /// The state after the frontier point at position `i` was retired.
    pub open spec fn retire(self, i: int) -> DiskView {
        DiskView { frontier: self.frontier.remove(i), ..self }
    }

    /// The throws that one step makes of those it is given: the first
    /// `attempts` of them.
    pub open spec fn throws(self, offsets: Seq<Offset>) -> Seq<Offset> {
        if offsets.len() <= self.attempts {
            offsets
        } else {
            offsets.take(self.attempts)
        }
    }

    /// The frontier point that the draw `pick` selects, if there is one.
    pub open spec fn selected(self, pick: int) -> Option<Point> {
        if self.frontier.len() == 0 {
            None
        } else {
            Some(self.frontier[pick_index(pick, self.frontier.len() as int)])
        }
    }

    /// One step. With an empty frontier nothing changes. Otherwise the draw
    /// `pick` selects a frontier point, the throws are made from it, and if
    /// none of them was accepted the point is retired.
    pub open spec fn step(self, pick: int, offsets: Seq<Offset>) -> DiskView {
        if self.frontier.len() == 0 {
            self
        } else {
            let i = pick_index(pick, self.frontier.len() as int);
            let thrown = self.offer_all(self.frontier[i], self.throws(offsets));
            if thrown.samples.len() == self.samples.len() {
                thrown.retire(i)
            } else {
                thrown
            }
        }
    }

    /// The sample at position `idx`, or the refusal of a position past the
    /// end, which names the position and the number of samples.
    pub open spec fn sample_at(self, idx: usize) -> Result<Point, OutOfRange> {
        if idx < self.samples.len() {
            Ok(self.samples[idx as int])
        } else {
            Err(OutOfRange { index: idx, len: self.samples.len() as usize })
        }
    }

    /// The number of columns of the background grid.
    pub open spec fn cols(self) -> int {
        grid_extent(self.width, self.radius)
    }

    /// The number of rows of the background grid.
    pub open spec fn rows(self) -> int {
        grid_extent(self.height, self.radius)
    }

    /// The number of cells of the background grid. No state holds more accepted
    /// points than that.
    pub open spec fn capacity(self) -> int {
        self.cols() * self.rows()
    }

    /// A bound on the steps still to come that find the frontier non-empty:
    /// every point that may still be accepted counts twice, once for its
    /// acceptance and once for its retirement, and every frontier point once.
    pub open spec fn remaining(self) -> int {
        2 * (self.capacity() - self.accepted().len()) + self.frontier.len()
    }

    /// `other` has the configuration of `self`.
    pub open spec fn same_config(self, other: DiskView) -> bool {
        &&& self.width == other.width
        &&& self.height == other.height
        &&& self.radius == other.radius
        &&& self.attempts == other.attempts
    }

    /// `other` has the seed and the samples of `self`, and then perhaps more
    /// samples.
    pub open spec fn extended_by(self, other: DiskView) -> bool {
        &&& self.seed == other.seed
        &&& self.samples.len() <= other.samples.len()
        &&& other.samples.take(self.samples.len() as int) == self.samples
    }
}

} // verus!
