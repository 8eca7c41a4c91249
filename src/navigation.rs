use vstd::prelude::*;

verus! {

/// The lowest and highest quote id of a corpus (both zero for an empty one).
#[derive(Clone, Copy, Debug, PartialEq, Eq, Structural)]
pub struct Bounds {
    pub min: u32,
    pub max: u32,
}

/// The target of the "previous" link shown beside quote `id`.
pub open spec fn previous_of(min: u32, max: u32, id: u32) -> u32 {
    if id > min {
        if id - 1 <= max {
            (id - 1) as u32
        } else {
            max
        }
    } else {
        min
    }
}

/// The target of the "next" link shown beside quote `id`.
pub open spec fn next_of(min: u32, max: u32, id: u32) -> u32 {
    if id < max {
        if id + 1 >= min {
            (id + 1) as u32
        } else {
            min
        }
    } else {
        max
    }
}

impl Bounds {
    /// Previous and next link targets for `id`: one step away, clamped to
    /// `[min, max]`. Neighbours are not checked to exist in the corpus.
    pub fn navigation(&self, id: u32) -> (r: (u32, u32))
        ensures
            r.0 == previous_of(self.min, self.max, id),
            r.1 == next_of(self.min, self.max, id),
    {
        let mut previous = self.min;
        let mut next = self.max;
        if id > self.min {
            previous = if id - 1 <= self.max {
                id - 1
            } else {
                self.max
            };
        }
        if id < self.max {
            next = if id + 1 >= self.min {
                id + 1
            } else {
                self.min
            };
        }
        (previous, next)
    }
}

} // verus!
