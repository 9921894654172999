//! Fixed-capacity time series for plots.
//!
//! One point per poll tick (default 1 s); the newest `CAPACITY` points
//! (30 minutes at 1 s) are kept, older ones fall off the front.
use vstd::prelude::*;

use std::collections::VecDeque;

verus! {

/// Points kept per series: 30 min at 1 s.
pub const CAPACITY: usize = 1800;

/// The newest `cap` items of `s` (all of them when there are fewer).
pub open spec fn newest<T>(s: Seq<T>, cap: nat) -> Seq<T> {
    if s.len() > cap {
        s.skip(s.len() - cap)
    } else {
        s
    }
}

/// A series holding at most `CAPACITY` points, oldest first.
pub struct Window<T> {
    points: VecDeque<T>,
}

impl<T> View for Window<T> {
    type V = Seq<T>;

    closed spec fn view(&self) -> Seq<T> {
        self.points@
    }
}

impl<T> Window<T> {
    #[verifier::type_invariant]
    spec fn bounded(self) -> bool {
        self.points@.len() <= CAPACITY
    }

    /// An empty series.
    pub fn new() -> (r: Window<T>)
        ensures
            r@ == Seq::<T>::empty(),
    {
        Window { points: VecDeque::new() }
    }

    /// Number of points held.
    pub fn len(&self) -> (r: usize)
        ensures
            r == self@.len(),
            r <= CAPACITY,
    {
        proof {
            use_type_invariant(self);
        }
        self.points.len()
    }

    /// Appends `x`, dropping the oldest point when the series is full.
    pub fn push(&mut self, x: T)
        ensures
            final(self)@ == newest(old(self)@.push(x), CAPACITY as nat),
    {
        proof {
            use_type_invariant(&*self);
        }
        let mut points: VecDeque<T> = VecDeque::new();
        std::mem::swap(&mut points, &mut self.points);
        let ghost before = points@;
        points.push_back(x);
        if points.len() > CAPACITY {
            points.pop_front();
            proof {
                assert(points@ =~= before.push(x).skip(1));
            }
        }
        self.points = points;
    }
}

impl<T: Copy> Window<T> {
    /// The newest `n` points (all of them when there are fewer), oldest
    /// first.
    pub fn tail(&self, n: usize) -> (r: Vec<T>)
        ensures
            r@ == newest(self@, n as nat),
    {
        let len = self.points.len();
        let start = if len > n {
            len - n
        } else {
            0
        };
        let mut r: Vec<T> = Vec::new();
        let mut i: usize = start;
        while i < len
            invariant
                len == self@.len(),
                start <= i <= len,
                r@ == self@.subrange(start as int, i as int),
            decreases len - i,
        {
            r.push(self.points[i]);
            proof {
                assert(r@ =~= self@.subrange(start as int, i + 1));
            }
            i = i + 1;
        }
        assert(self@.subrange(start as int, len as int) =~= newest(self@, n as nat));
        r
    }
}

} // verus!
