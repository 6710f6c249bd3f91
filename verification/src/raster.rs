//! Line rasterisation: Bresenham's algorithm as a restartable cursor over
//! the lattice points of a segment, a sibling utility consumed nowhere by
//! the grid, region or path components.

use vstd::prelude::*;

verus! {

use crate::coord::V2i;
use crate::coord::iabs;

/// The unit sign of a machine integer, as a mathematical integer.
pub open spec fn sign_of(x: int) -> int {
    if x > 0 {
        1
    } else if x < 0 {
        -1
    } else {
        0
    }
}

/// A cursor yielding the points of a rasterised line segment: it walks the
/// major axis one step at a time, carrying the accumulated error that
/// decides when the minor axis advances; `swap` marks that the axes were
/// exchanged so the major axis runs along the stored x.
#[derive(Debug, Clone)]
pub struct BresenhamLineIter {
    current: V2i,
    delta: V2i,
    error: isize,
    dist: isize,
    swap: bool,
}

impl BresenhamLineIter {
    pub closed spec fn spec_current(self) -> V2i {
        self.current
    }

    pub closed spec fn spec_delta(self) -> V2i {
        self.delta
    }

    pub closed spec fn spec_error(self) -> int {
        self.error as int
    }

    pub closed spec fn spec_dist(self) -> int {
        self.dist as int
    }

    pub closed spec fn spec_swap(self) -> bool {
        self.swap
    }

    /// Between calls: the stored major extent is non-negative and dominates
    /// the minor one, the error stays within one major step of its band,
    /// and the cursor has room to walk the remaining distance.
    pub open spec fn wf(self) -> bool {
        &&& 0 <= self.spec_delta().0 <= isize::MAX / 4
        &&& iabs(self.spec_delta().1 as int) <= self.spec_delta().0
        &&& -2 * self.spec_delta().0 <= self.spec_error()
        &&& self.spec_error() <= 2 * iabs(self.spec_delta().1 as int)
        &&& 0 <= self.spec_dist() <= self.spec_delta().0 + 1
        &&& self.spec_current().0 + self.spec_dist() <= isize::MAX
        &&& isize::MIN <= self.spec_current().0
        &&& self.spec_current().1 + self.spec_dist() <= isize::MAX
        &&& isize::MIN + self.spec_dist() <= self.spec_current().1
    }

    /// Yields the point under the cursor, exchanged back if the axes were
    /// swapped, and advances: one step along the major axis, one along the
    /// minor axis whenever the error has run positive; `None` once the
    /// remaining distance is exhausted.
    pub fn next(&mut self) -> (r: Option<V2i>)
        requires
            old(self).wf(),
        ensures
            final(self).wf(),
            final(self).spec_swap() == old(self).spec_swap(),
            final(self).spec_delta() == old(self).spec_delta(),
            old(self).spec_dist() <= 0 ==> r is None && *final(self) == *old(self),
            old(self).spec_dist() > 0 ==> {
                let cur = old(self).spec_current();
                let e = old(self).spec_error();
                let d = old(self).spec_delta();
                &&& r == Some(
                    if old(self).spec_swap() {
                        V2i(cur.1, cur.0)
                    } else {
                        cur
                    },
                )
                &&& final(self).spec_dist() == old(self).spec_dist() - 1
                &&& final(self).spec_current().0 == cur.0 + 1
                &&& final(self).spec_current().1 as int == cur.1 + (if e > 0 {
                    sign_of(d.1 as int)
                } else {
                    0
                })
                &&& final(self).spec_error() == e + 2 * iabs(d.1 as int) - (if e > 0 {
                    2 * (d.0 as int)
                } else {
                    0
                })
            },
    {
        if self.dist <= 0 {
            None
        } else {
            let pt = self.current;
            self.dist = self.dist - 1;
            self.current.0 = self.current.0 + 1;
            if self.error > 0 {
                let sg: isize = if self.delta.1 > 0 {
                    1
                } else if self.delta.1 < 0 {
                    -1
                } else {
                    0
                };
                self.current.1 = self.current.1 + sg;
                self.error = self.error - 2 * self.delta.0;
            }
            let ad1: isize = if self.delta.1 < 0 {
                -self.delta.1
            } else {
                self.delta.1
            };
            self.error = self.error + 2 * ad1;
            Some(if self.swap { pt.swap() } else { pt })
        }
    }
}

/// The Bresenham cursor for the segment from `a` to `b`: the walk runs from
/// the lesser endpoint along the longer axis, with the axes exchanged when
/// the segment is steeper than a diagonal, and covers `major extent + 1`
/// points.
pub fn line(a: V2i, b: V2i) -> (r: BresenhamLineIter)
    requires
        iabs(a.0 as int) <= isize::MAX / 8,
        iabs(a.1 as int) <= isize::MAX / 8,
        iabs(b.0 as int) <= isize::MAX / 8,
        iabs(b.1 as int) <= isize::MAX / 8,
    ensures
        r.wf(),
        ({
            let dab0 = a.0 - b.0;
            let dab1 = a.1 - b.1;
            if iabs(dab1) < iabs(dab0) {
                &&& r.spec_swap() == false
                &&& (a.0 > b.0 ==> r.spec_current() == b && r.spec_delta().0 == a.0 - b.0
                    && r.spec_delta().1 == a.1 - b.1)
                &&& (a.0 <= b.0 ==> r.spec_current() == a && r.spec_delta().0 == b.0 - a.0
                    && r.spec_delta().1 == b.1 - a.1)
            } else {
                &&& r.spec_swap() == true
                &&& (a.1 > b.1 ==> r.spec_current() == V2i(b.1, b.0) && r.spec_delta().0 == a.1
                    - b.1 && r.spec_delta().1 == a.0 - b.0)
                &&& (a.1 <= b.1 ==> r.spec_current() == V2i(a.1, a.0) && r.spec_delta().0 == b.1
                    - a.1 && r.spec_delta().1 == b.0 - a.0)
            }
        }),
        r.spec_error() == 2 * iabs(r.spec_delta().1 as int) - r.spec_delta().0,
        r.spec_dist() == 1 + (if r.spec_delta().0 == 0 {
            r.spec_delta().1 as int
        } else {
            r.spec_delta().0 as int
        }),
{
    let dab0: isize = a.0 - b.0;
    let dab1: isize = a.1 - b.1;
    let adab0: isize = if dab0 < 0 { -dab0 } else { dab0 };
    let adab1: isize = if dab1 < 0 { -dab1 } else { dab1 };

    let current: V2i;
    let delta: V2i;
    let swap: bool;
    if adab1 < adab0 {
        if a.0 > b.0 {
            current = b;
            delta = V2i(a.0 - b.0, a.1 - b.1);
        } else {
            current = a;
            delta = V2i(b.0 - a.0, b.1 - a.1);
        }
        swap = false;
    } else {
        if a.1 > b.1 {
            current = V2i(b.1, b.0);
            delta = V2i(a.1 - b.1, a.0 - b.0);
        } else {
            current = V2i(a.1, a.0);
            delta = V2i(b.1 - a.1, b.0 - a.0);
        }
        swap = true;
    }

    let ad1: isize = if delta.1 < 0 { -delta.1 } else { delta.1 };
    let error: isize = 2 * ad1 - delta.0;
    let dist: isize = 1 + (if delta.0 == 0 { delta.1 } else { delta.0 });

    BresenhamLineIter { current, delta, error, dist, swap }
}

} // verus!
