//! Integer 2-vectors and axis-aligned rectangles over lattice points: the
//! coordinate kernel the grid, region and path components sit on.

use vstd::prelude::*;

verus! {

/// Absolute value over mathematical integers.
pub open spec fn iabs(x: int) -> int {
    if x < 0 {
        -x
    } else {
        x
    }
}

/// The point has room for a unit step in every direction without leaving the
/// machine integer range.
pub open spec fn in_safe_range(p: V2i) -> bool {
    isize::MIN < p.0 < isize::MAX && isize::MIN < p.1 < isize::MAX
}

/// A lattice point: an ordered pair of signed integers, the addressing unit
/// throughout.
#[derive(Debug, Clone, Copy, PartialEq, Eq, Hash, Structural)]
pub struct V2i(pub isize, pub isize);

impl V2i {
    /// Componentwise properties as spec-level predicates.
    pub open spec fn is_q1_spec(self) -> bool {
        self.0 >= 0 && self.1 >= 0
    }

    pub open spec fn is_strict_q1_spec(self) -> bool {
        self.0 > 0 && self.1 > 0
    }

    /// Manhattan norm.
    pub fn l1(self) -> (r: isize)
        requires
            iabs(self.0 as int) + iabs(self.1 as int) <= isize::MAX as int,
        ensures
            r as int == iabs(self.0 as int) + iabs(self.1 as int),
    {
        let ax: isize = if self.0 < 0 { -self.0 } else { self.0 };
        let ay: isize = if self.1 < 0 { -self.1 } else { self.1 };
        ax + ay
    }

    /// Squared Euclidean norm.
    pub fn l2_sq(self) -> (r: isize)
        requires
            self.0 * self.0 + self.1 * self.1 <= isize::MAX as int,
        ensures
            r as int == self.0 * self.0 + self.1 * self.1,
    {
        proof {
            assert(self.0 * self.0 >= 0 && self.1 * self.1 >= 0) by (nonlinear_arith);
        }
        self.0 * self.0 + self.1 * self.1
    }

    /// The smaller of the two absolute components.
    pub fn linf(self) -> (r: isize)
        requires
            self.0 != isize::MIN,
            self.1 != isize::MIN,
        ensures
            r as int == if iabs(self.0 as int) <= iabs(self.1 as int) {
                iabs(self.0 as int)
            } else {
                iabs(self.1 as int)
            },
    {
        let ax: isize = if self.0 < 0 { -self.0 } else { self.0 };
        let ay: isize = if self.1 < 0 { -self.1 } else { self.1 };
        if ax <= ay { ax } else { ay }
    }

    pub fn swap(self) -> (r: V2i)
        ensures
            r.0 == self.1,
            r.1 == self.0,
    {
        V2i(self.1, self.0)
    }

    pub fn abs(self) -> (r: V2i)
        requires
            self.0 != isize::MIN,
            self.1 != isize::MIN,
        ensures
            r.0 as int == iabs(self.0 as int),
            r.1 as int == iabs(self.1 as int),
    {
        V2i(
            if self.0 < 0 { -self.0 } else { self.0 },
            if self.1 < 0 { -self.1 } else { self.1 },
        )
    }

    /// Componentwise truncating division, rounding toward zero as machine
    /// division does.
    pub fn div(self, other: V2i) -> (r: V2i)
        requires
            other.0 != 0,
            other.1 != 0,
            !(self.0 == isize::MIN && other.0 == -1),
            !(self.1 == isize::MIN && other.1 == -1),
        ensures
            r.0 as int == trunc_div(self.0 as int, other.0 as int),
            r.1 as int == trunc_div(self.1 as int, other.1 as int),
    {
        proof {
            lemma_trunc_in_range(self.0 as int, other.0 as int);
            lemma_trunc_in_range(self.1 as int, other.1 as int);
        }
        V2i(self.0.checked_div(other.0).unwrap(), self.1.checked_div(other.1).unwrap())
    }

    /// Componentwise Euclidean division: the quotient whose remainder is
    /// always non-negative, symmetric across the origin.
    pub fn div_euclid(self, other: V2i) -> (r: V2i)
        requires
            other.0 != 0,
            other.1 != 0,
            !(self.0 == isize::MIN && other.0 == -1),
            !(self.1 == isize::MIN && other.1 == -1),
        ensures
            r.0 as int == self.0 as int / other.0 as int,
            r.1 as int == self.1 as int / other.1 as int,
    {
        proof {
            lemma_euclid_in_range(self.0 as int, other.0 as int);
            lemma_euclid_in_range(self.1 as int, other.1 as int);
        }
        V2i(
            self.0.checked_div_euclid(other.0).unwrap(),
            self.1.checked_div_euclid(other.1).unwrap(),
        )
    }

    /// Componentwise Euclidean remainder, always in `[0, |divisor|)`.
    pub fn rem_euclid(self, other: V2i) -> (r: V2i)
        requires
            other.0 != 0,
            other.1 != 0,
            !(self.0 == isize::MIN && other.0 == -1),
            !(self.1 == isize::MIN && other.1 == -1),
        ensures
            r.0 as int == self.0 as int % other.0 as int,
            r.1 as int == self.1 as int % other.1 as int,
    {
        proof {
            lemma_euclid_in_range(self.0 as int, other.0 as int);
            lemma_euclid_in_range(self.1 as int, other.1 as int);
        }
        V2i(
            self.0.checked_rem_euclid(other.0).unwrap(),
            self.1.checked_rem_euclid(other.1).unwrap(),
        )
    }

    pub fn is_q1(self) -> (r: bool)
        ensures
            r == self.is_q1_spec(),
    {
        self.0 >= 0 && self.1 >= 0
    }

    pub fn is_strict_q1(self) -> (r: bool)
        ensures
            r == self.is_strict_q1_spec(),
    {
        self.0 > 0 && self.1 > 0
    }

    /// The smaller component.
    pub fn cmin(self) -> (r: isize)
        ensures
            r == if self.0 <= self.1 { self.0 } else { self.1 },
    {
        if self.0 <= self.1 { self.0 } else { self.1 }
    }

    /// The larger component.
    pub fn cmax(self) -> (r: isize)
        ensures
            r == if self.0 >= self.1 { self.0 } else { self.1 },
    {
        if self.0 >= self.1 { self.0 } else { self.1 }
    }

    /// Componentwise minimum.
    pub fn min(self, other: V2i) -> (r: V2i)
        ensures
            r.0 == if self.0 <= other.0 { self.0 } else { other.0 },
            r.1 == if self.1 <= other.1 { self.1 } else { other.1 },
    {
        V2i(
            if self.0 <= other.0 { self.0 } else { other.0 },
            if self.1 <= other.1 { self.1 } else { other.1 },
        )
    }

    /// Componentwise maximum.
    pub fn max(self, other: V2i) -> (r: V2i)
        ensures
            r.0 == if self.0 >= other.0 { self.0 } else { other.0 },
            r.1 == if self.1 >= other.1 { self.1 } else { other.1 },
    {
        V2i(
            if self.0 >= other.0 { self.0 } else { other.0 },
            if self.1 >= other.1 { self.1 } else { other.1 },
        )
    }

    /// Componentwise sum.
    pub fn add(self, other: V2i) -> (r: V2i)
        requires
            isize::MIN <= self.0 + other.0 <= isize::MAX,
            isize::MIN <= self.1 + other.1 <= isize::MAX,
        ensures
            r.0 == self.0 + other.0,
            r.1 == self.1 + other.1,
    {
        V2i(self.0 + other.0, self.1 + other.1)
    }

    /// Componentwise difference.
    pub fn sub(self, other: V2i) -> (r: V2i)
        requires
            isize::MIN <= self.0 - other.0 <= isize::MAX,
            isize::MIN <= self.1 - other.1 <= isize::MAX,
        ensures
            r.0 == self.0 - other.0,
            r.1 == self.1 - other.1,
    {
        V2i(self.0 - other.0, self.1 - other.1)
    }

    /// Componentwise product.
    pub fn mul(self, other: V2i) -> (r: V2i)
        requires
            isize::MIN <= self.0 * other.0 <= isize::MAX,
            isize::MIN <= self.1 * other.1 <= isize::MAX,
        ensures
            r.0 == self.0 * other.0,
            r.1 == self.1 * other.1,
    {
        V2i(self.0 * other.0, self.1 * other.1)
    }
}

/// An axis-aligned rectangle of lattice points: the half-open box
/// `[origin, origin + dim)` on each axis, with `dim` componentwise
/// non-negative after construction.
#[derive(Debug, Clone, Copy, PartialEq, Eq, Hash, Structural)]
pub struct R2i {
    origin: V2i,
    dim: V2i,
}

/// The lower corner after normalising a possibly negative extent.
pub open spec fn norm_o(o: int, d: int) -> int {
    if d < 0 {
        o + d
    } else {
        o
    }
}

/// The extent after normalisation.
pub open spec fn norm_d(d: int) -> int {
    if d < 0 {
        -d
    } else {
        d
    }
}

impl R2i {
    pub closed spec fn spec_origin(self) -> V2i {
        self.origin
    }

    pub closed spec fn spec_dim(self) -> V2i {
        self.dim
    }

    /// Well-formed rectangle: non-negative extents whose opposite corner
    /// still fits the machine range.
    pub open spec fn wf(self) -> bool {
        &&& 0 <= self.spec_dim().0
        &&& 0 <= self.spec_dim().1
        &&& self.spec_origin().0 + self.spec_dim().0 <= isize::MAX
        &&& self.spec_origin().1 + self.spec_dim().1 <= isize::MAX
    }

    /// The rectangle holds `p`.
    pub open spec fn contains_pt(self, p: V2i) -> bool {
        &&& self.spec_origin().0 <= p.0 < self.spec_origin().0 + self.spec_dim().0
        &&& self.spec_origin().1 <= p.1 < self.spec_origin().1 + self.spec_dim().1
    }

    /// The rectangle spanning `[origin, origin + dim)`, flipping the origin
    /// along any axis whose extent is negative.
    pub fn origin_dim(origin: V2i, dim: V2i) -> (r: R2i)
        requires
            isize::MIN <= origin.0 + dim.0 <= isize::MAX,
            isize::MIN <= origin.1 + dim.1 <= isize::MAX,
            dim.0 != isize::MIN,
            dim.1 != isize::MIN,
        ensures
            r.spec_origin().0 == norm_o(origin.0 as int, dim.0 as int),
            r.spec_origin().1 == norm_o(origin.1 as int, dim.1 as int),
            r.spec_dim().0 == norm_d(dim.0 as int),
            r.spec_dim().1 == norm_d(dim.1 as int),
            r.wf(),
    {
        let mut origin = origin;
        let mut dim = dim;
        if dim.0 < 0 {
            dim.0 = -dim.0;
            origin.0 = origin.0 - dim.0;
        }
        if dim.1 < 0 {
            dim.1 = -dim.1;
            origin.1 = origin.1 - dim.1;
        }
        R2i { origin, dim }
    }

    /// The rectangle spanning the two given corners.
    pub fn origin_opp(origin: V2i, opposite: V2i) -> (r: R2i)
        requires
            isize::MIN < opposite.0 - origin.0 <= isize::MAX,
            isize::MIN < opposite.1 - origin.1 <= isize::MAX,
        ensures
            r.spec_origin().0 == norm_o(origin.0 as int, opposite.0 - origin.0),
            r.spec_origin().1 == norm_o(origin.1 as int, opposite.1 - origin.1),
            r.spec_dim().0 == norm_d(opposite.0 - origin.0),
            r.spec_dim().1 == norm_d(opposite.1 - origin.1),
            r.wf(),
    {
        R2i::origin_dim(origin, V2i(opposite.0 - origin.0, opposite.1 - origin.1))
    }

    pub fn origin(&self) -> (r: V2i)
        ensures
            r == self.spec_origin(),
    {
        self.origin
    }

    pub fn dim(&self) -> (r: V2i)
        ensures
            r == self.spec_dim(),
    {
        self.dim
    }

    /// The corner opposite the origin, `origin + dim`.
    pub fn opp(&self) -> (r: V2i)
        requires
            self.wf(),
        ensures
            r.0 == self.spec_origin().0 + self.spec_dim().0,
            r.1 == self.spec_origin().1 + self.spec_dim().1,
    {
        V2i(self.origin.0 + self.dim.0, self.origin.1 + self.dim.1)
    }

    /// The overlap of two rectangles: the rectangle holding exactly the
    /// points both hold, or `None` when no point lies in both.
    pub fn intersect(&self, other: R2i) -> (r: Option<R2i>)
        requires
            self.wf(),
            other.wf(),
        ensures
            match r {
                Some(c) => {
                    &&& c.wf()
                    &&& forall|p: V2i|
                        c.contains_pt(p) <==> (self.contains_pt(p) && other.contains_pt(p))
                },
                None => forall|p: V2i| !(self.contains_pt(p) && other.contains_pt(p)),
            },
    {
        let ox: isize = if self.origin.0 >= other.origin.0 { self.origin.0 } else { other.origin.0 };
        let oy: isize = if self.origin.1 >= other.origin.1 { self.origin.1 } else { other.origin.1 };
        let sx: isize = self.origin.0 + self.dim.0;
        let sy: isize = self.origin.1 + self.dim.1;
        let tx: isize = other.origin.0 + other.dim.0;
        let ty: isize = other.origin.1 + other.dim.1;
        let ex: isize = if sx <= tx { sx } else { tx };
        let ey: isize = if sy <= ty { sy } else { ty };
        if ox < ex && oy < ey {
            Some(R2i { origin: V2i(ox, oy), dim: V2i(ex - ox, ey - oy) })
        } else {
            None
        }
    }

    /// The bounding box of two rectangles: the least origin and the greatest
    /// opposite corner.
    pub fn union(&self, other: R2i) -> (r: R2i)
        requires
            self.wf(),
            other.wf(),
            ({
                let lo = if self.spec_origin().0 <= other.spec_origin().0 {
                    self.spec_origin().0 as int
                } else {
                    other.spec_origin().0 as int
                };
                let hi = if self.spec_origin().0 + self.spec_dim().0
                    >= other.spec_origin().0 + other.spec_dim().0 {
                    self.spec_origin().0 + self.spec_dim().0
                } else {
                    other.spec_origin().0 + other.spec_dim().0
                };
                hi - lo <= isize::MAX
            }),
            ({
                let lo = if self.spec_origin().1 <= other.spec_origin().1 {
                    self.spec_origin().1 as int
                } else {
                    other.spec_origin().1 as int
                };
                let hi = if self.spec_origin().1 + self.spec_dim().1
                    >= other.spec_origin().1 + other.spec_dim().1 {
                    self.spec_origin().1 + self.spec_dim().1
                } else {
                    other.spec_origin().1 + other.spec_dim().1
                };
                hi - lo <= isize::MAX
            }),
        ensures
            r.wf(),
            r.spec_origin().0 == if self.spec_origin().0 <= other.spec_origin().0 {
                self.spec_origin().0
            } else {
                other.spec_origin().0
            },
            r.spec_origin().1 == if self.spec_origin().1 <= other.spec_origin().1 {
                self.spec_origin().1
            } else {
                other.spec_origin().1
            },
            r.spec_origin().0 + r.spec_dim().0 == if self.spec_origin().0 + self.spec_dim().0
                >= other.spec_origin().0 + other.spec_dim().0 {
                self.spec_origin().0 + self.spec_dim().0
            } else {
                other.spec_origin().0 + other.spec_dim().0
            },
            r.spec_origin().1 + r.spec_dim().1 == if self.spec_origin().1 + self.spec_dim().1
                >= other.spec_origin().1 + other.spec_dim().1 {
                self.spec_origin().1 + self.spec_dim().1
            } else {
                other.spec_origin().1 + other.spec_dim().1
            },
    {
        let ox: isize = if self.origin.0 <= other.origin.0 { self.origin.0 } else { other.origin.0 };
        let oy: isize = if self.origin.1 <= other.origin.1 { self.origin.1 } else { other.origin.1 };
        let sx: isize = self.origin.0 + self.dim.0;
        let sy: isize = self.origin.1 + self.dim.1;
        let tx: isize = other.origin.0 + other.dim.0;
        let ty: isize = other.origin.1 + other.dim.1;
        let ex: isize = if sx >= tx { sx } else { tx };
        let ey: isize = if sy >= ty { sy } else { ty };
        R2i { origin: V2i(ox, oy), dim: V2i(ex - ox, ey - oy) }
    }

    /// The same rectangle moved by `offset`.
    pub fn translate(&self, offset: V2i) -> (r: R2i)
        requires
            self.wf(),
            isize::MIN <= self.spec_origin().0 + offset.0,
            self.spec_origin().0 + self.spec_dim().0 + offset.0 <= isize::MAX,
            isize::MIN <= self.spec_origin().1 + offset.1,
            self.spec_origin().1 + self.spec_dim().1 + offset.1 <= isize::MAX,
        ensures
            r.wf(),
            r.spec_origin().0 == self.spec_origin().0 + offset.0,
            r.spec_origin().1 == self.spec_origin().1 + offset.1,
            r.spec_dim() == self.spec_dim(),
    {
        R2i::origin_dim(V2i(self.origin.0 + offset.0, self.origin.1 + offset.1), self.dim)
    }

    /// The rectangle with its extent multiplied componentwise by `amount`,
    /// normalised like `origin_dim` when the product runs negative.
    pub fn scale(&self, amount: V2i) -> (r: R2i)
        requires
            self.wf(),
            isize::MIN < self.spec_dim().0 * amount.0 <= isize::MAX,
            isize::MIN < self.spec_dim().1 * amount.1 <= isize::MAX,
            isize::MIN <= self.spec_origin().0 + self.spec_dim().0 * amount.0 <= isize::MAX,
            isize::MIN <= self.spec_origin().1 + self.spec_dim().1 * amount.1 <= isize::MAX,
        ensures
            r.wf(),
            r.spec_origin().0 == norm_o(
                self.spec_origin().0 as int,
                self.spec_dim().0 * amount.0,
            ),
            r.spec_origin().1 == norm_o(
                self.spec_origin().1 as int,
                self.spec_dim().1 * amount.1,
            ),
            r.spec_dim().0 == norm_d(self.spec_dim().0 * amount.0),
            r.spec_dim().1 == norm_d(self.spec_dim().1 * amount.1),
    {
        R2i::origin_dim(self.origin, V2i(self.dim.0 * amount.0, self.dim.1 * amount.1))
    }

    /// The smaller extent.
    pub fn minor_rad(&self) -> (r: isize)
        ensures
            r == if self.spec_dim().0 <= self.spec_dim().1 {
                self.spec_dim().0
            } else {
                self.spec_dim().1
            },
    {
        self.dim.cmin()
    }

    /// The larger extent.
    pub fn major_rad(&self) -> (r: isize)
        ensures
            r == if self.spec_dim().0 >= self.spec_dim().1 {
                self.spec_dim().0
            } else {
                self.spec_dim().1
            },
    {
        self.dim.cmax()
    }

    /// The rectangle respanned from corner `origin - amt` to corner
    /// `opp + 2 * amt`: with a non-negative `amt` it pads the rectangle by
    /// `amt` below and `2 * amt` above on each axis, so the extent grows by
    /// `3 * amt`.
    pub fn grow_aniso(&self, amt: V2i) -> (r: R2i)
        requires
            self.wf(),
            isize::MIN <= self.spec_origin().0 - amt.0 <= isize::MAX,
            isize::MIN <= self.spec_origin().1 - amt.1 <= isize::MAX,
            isize::MIN <= self.spec_origin().0 + self.spec_dim().0 + amt.0,
            isize::MIN <= self.spec_origin().1 + self.spec_dim().1 + amt.1,
            isize::MIN <= self.spec_origin().0 + self.spec_dim().0 + 2 * amt.0 <= isize::MAX,
            isize::MIN <= self.spec_origin().1 + self.spec_dim().1 + 2 * amt.1 <= isize::MAX,
            isize::MIN < self.spec_dim().0 + 3 * amt.0 <= isize::MAX,
            isize::MIN < self.spec_dim().1 + 3 * amt.1 <= isize::MAX,
        ensures
            r.wf(),
            r.spec_origin().0 == norm_o(
                self.spec_origin().0 - amt.0,
                self.spec_dim().0 + 3 * amt.0,
            ),
            r.spec_origin().1 == norm_o(
                self.spec_origin().1 - amt.1,
                self.spec_dim().1 + 3 * amt.1,
            ),
            r.spec_dim().0 == norm_d(self.spec_dim().0 + 3 * amt.0),
            r.spec_dim().1 == norm_d(self.spec_dim().1 + 3 * amt.1),
    {
        proof {
            assert(self.spec_origin().0 + self.spec_dim().0 + amt.0 <= isize::MAX) by {
                if amt.0 >= 0 {
                    assert(self.spec_origin().0 + self.spec_dim().0 + amt.0
                        <= self.spec_origin().0 + self.spec_dim().0 + 2 * amt.0);
                }
            }
            assert(self.spec_origin().1 + self.spec_dim().1 + amt.1 <= isize::MAX) by {
                if amt.1 >= 0 {
                    assert(self.spec_origin().1 + self.spec_dim().1 + amt.1
                        <= self.spec_origin().1 + self.spec_dim().1 + 2 * amt.1);
                }
            }
            assert(self.spec_origin().0 + self.spec_dim().0 + amt.0 + amt.0
                == self.spec_origin().0 + self.spec_dim().0 + 2 * amt.0);
            assert(self.spec_origin().1 + self.spec_dim().1 + amt.1 + amt.1
                == self.spec_origin().1 + self.spec_dim().1 + 2 * amt.1);
        }
        let ox: isize = self.origin.0 - amt.0;
        let oy: isize = self.origin.1 - amt.1;
        let qx: isize = self.origin.0 + self.dim.0;
        let qy: isize = self.origin.1 + self.dim.1;
        let rx: isize = qx + amt.0;
        let ry: isize = qy + amt.1;
        let px: isize = rx + amt.0;
        let py: isize = ry + amt.1;
        R2i::origin_opp(V2i(ox, oy), V2i(px, py))
    }

    /// `grow_aniso` with the same padding on both axes.
    pub fn grow(&self, amt: isize) -> (r: R2i)
        requires
            self.wf(),
            isize::MIN <= self.spec_origin().0 - amt <= isize::MAX,
            isize::MIN <= self.spec_origin().1 - amt <= isize::MAX,
            isize::MIN <= self.spec_origin().0 + self.spec_dim().0 + amt,
            isize::MIN <= self.spec_origin().1 + self.spec_dim().1 + amt,
            isize::MIN <= self.spec_origin().0 + self.spec_dim().0 + 2 * amt <= isize::MAX,
            isize::MIN <= self.spec_origin().1 + self.spec_dim().1 + 2 * amt <= isize::MAX,
            isize::MIN < self.spec_dim().0 + 3 * amt <= isize::MAX,
            isize::MIN < self.spec_dim().1 + 3 * amt <= isize::MAX,
        ensures
            r.wf(),
            r.spec_origin().0 == norm_o(self.spec_origin().0 - amt, self.spec_dim().0 + 3 * amt),
            r.spec_origin().1 == norm_o(self.spec_origin().1 - amt, self.spec_dim().1 + 3 * amt),
            r.spec_dim().0 == norm_d(self.spec_dim().0 + 3 * amt),
            r.spec_dim().1 == norm_d(self.spec_dim().1 + 3 * amt),
    {
        self.grow_aniso(V2i(amt, amt))
    }

    /// A restartable cursor over the rectangle's lattice points in row-major
    /// order.
    pub fn iter(&self) -> (r: R2iIter)
        requires
            self.wf(),
        ensures
            r.wf(),
            r.spec_rect() == *self,
            r.spec_current() == self.spec_origin(),
    {
        R2iIter { rect: *self, current: self.origin }
    }
}

/// A cursor walking a rectangle's lattice points in row-major order; `next`
/// yields the current point and advances, column first, then row.
#[derive(Debug, Clone, Copy)]
pub struct R2iIter {
    rect: R2i,
    current: V2i,
}

/// The cursor position after one row-major step inside `rect`.
pub open spec fn row_major_next(rect: R2i, cur: V2i) -> (int, int) {
    let o = rect.spec_origin();
    let opp0 = o.0 + rect.spec_dim().0;
    let a = if cur.0 < opp0 {
        cur.0 + 1
    } else {
        cur.0 as int
    };
    if a >= opp0 {
        (o.0 as int, cur.1 + 1)
    } else {
        (a, cur.1 as int)
    }
}

impl R2iIter {
    pub closed spec fn spec_rect(self) -> R2i {
        self.rect
    }

    pub closed spec fn spec_current(self) -> V2i {
        self.current
    }

    /// Between calls the cursor sits inside the closed box spanned by the
    /// rectangle's corners.
    pub open spec fn wf(self) -> bool {
        &&& self.spec_rect().wf()
        &&& self.spec_rect().spec_origin().0 <= self.spec_current().0
        &&& self.spec_current().0 <= self.spec_rect().spec_origin().0 + self.spec_rect().spec_dim().0
        &&& self.spec_rect().spec_origin().1 <= self.spec_current().1
        &&& self.spec_current().1 <= self.spec_rect().spec_origin().1 + self.spec_rect().spec_dim().1
    }

    /// Yields the point under the cursor and advances it one step in
    /// row-major order; `None` once the cursor has passed the last row, and
    /// always `None` over a rectangle with no columns, which holds no
    /// lattice point.
    pub fn next(&mut self) -> (r: Option<V2i>)
        requires
            old(self).wf(),
        ensures
            final(self).wf(),
            final(self).spec_rect() == old(self).spec_rect(),
            old(self).spec_current().1 >= old(self).spec_rect().spec_origin().1
                + old(self).spec_rect().spec_dim().1 || old(self).spec_rect().spec_dim().0 == 0
                ==> {
                &&& r is None
                &&& final(self).spec_current() == old(self).spec_current()
            },
            old(self).spec_current().1 < old(self).spec_rect().spec_origin().1
                + old(self).spec_rect().spec_dim().1 && old(self).spec_rect().spec_dim().0 != 0
                ==> {
                &&& r == Some(old(self).spec_current())
                &&& final(self).spec_current().0 as int
                    == row_major_next(old(self).spec_rect(), old(self).spec_current()).0
                &&& final(self).spec_current().1 as int
                    == row_major_next(old(self).spec_rect(), old(self).spec_current()).1
            },
    {
        let cur = self.current;
        let opp0: isize = self.rect.origin.0 + self.rect.dim.0;
        let opp1: isize = self.rect.origin.1 + self.rect.dim.1;

        if cur.1 >= opp1 || self.rect.dim.0 == 0 {
            return None;
        }

        if self.current.0 < opp0 {
            self.current.0 = self.current.0 + 1;
        }
        if self.current.0 >= opp0 {
            self.current.0 = self.rect.origin.0;
            self.current.1 = self.current.1 + 1;
        }

        Some(cur)
    }
}

/// Truncating division over mathematical integers: the quotient rounded
/// toward zero, as machine division rounds.
pub open spec fn trunc_div(x: int, d: int) -> int {
    if x == 0 {
        0
    } else if x > 0 && d > 0 {
        x / d
    } else if x < 0 && d < 0 {
        (x * -1) / (d * -1)
    } else if x < 0 {
        ((x * -1) / d) * -1
    } else {
        (x / (d * -1)) * -1
    }
}

/// The truncated quotient of machine integers stays within the machine
/// range whenever the division itself is defined.
proof fn lemma_trunc_in_range(a: int, b: int)
    requires
        isize::MIN <= a <= isize::MAX,
        b != 0,
        isize::MIN <= b <= isize::MAX,
        !(a == isize::MIN && b == -1),
    ensures
        isize::MIN <= trunc_div(a, b) <= isize::MAX,
{
    if a == 0 {
    } else if a > 0 && b > 0 {
        lemma_pos_div_bounds(a, b);
    } else if a < 0 && b < 0 {
        if b == -1 {
            assert(trunc_div(a, b) == (a * -1) / 1);
            assert((a * -1) / 1 == a * -1) by (nonlinear_arith);
        } else {
            lemma_pos_div_bounds(a * -1, b * -1);
            assert((a * -1) / (b * -1) <= ((isize::MAX as int) + 1) / 2) by (nonlinear_arith)
                requires
                    a * -1 <= (isize::MAX as int) + 1,
                    b * -1 >= 2,
                    (a * -1) / (b * -1) >= 0;
        }
    } else if a < 0 {
        lemma_pos_div_bounds(a * -1, b);
        if a == isize::MIN {
            if b == 1 {
                assert((a * -1) / 1 == a * -1) by (nonlinear_arith);
            } else {
                assert((a * -1) / b <= ((isize::MAX as int) + 1) / 2) by (nonlinear_arith)
                    requires
                        a * -1 <= (isize::MAX as int) + 1,
                        b >= 2,
                        (a * -1) / b >= 0;
            }
        }
    } else {
        lemma_pos_div_bounds(a, b * -1);
    }
}

/// A quotient of positive machine-range integers lies between zero and the
/// dividend.
proof fn lemma_pos_div_bounds(x: int, d: int)
    requires
        1 <= x,
        1 <= d,
    ensures
        0 <= x / d <= x,
{
    vstd::arithmetic::div_mod::lemma_fundamental_div_mod(x, d);
    vstd::arithmetic::div_mod::lemma_mod_bound(x, d);
    let q = x / d;
    let r = x % d;
    assert(0 <= q && q <= x) by (nonlinear_arith)
        requires
            x == d * q + r,
            0 <= r < d,
            1 <= d,
            1 <= x;
}

/// Euclidean quotient and remainder of machine integers stay within the
/// machine range whenever the division itself is defined.
pub proof fn lemma_euclid_in_range(a: int, b: int)
    requires
        isize::MIN <= a <= isize::MAX,
        b != 0,
        isize::MIN <= b <= isize::MAX,
        !(a == isize::MIN && b == -1),
    ensures
        isize::MIN <= a / b <= isize::MAX,
        isize::MIN <= a % b <= isize::MAX,
        0 <= a % b < iabs(b),
{
    vstd::arithmetic::div_mod::lemma_fundamental_div_mod(a, b);
    assert(0 <= a % b < iabs(b)) by (nonlinear_arith)
        requires b != 0;
    let q = a / b;
    let r = a % b;
    assert(a == b * q + r);
    if b >= 1 {
        assert(isize::MIN <= q <= isize::MAX) by (nonlinear_arith)
            requires
                a == b * q + r,
                0 <= r < b,
                b >= 1,
                isize::MIN <= a <= isize::MAX;
    } else {
        assert(b <= -1);
        if b == -1 {
            assert(0 <= r < 1);
            assert(q == -a) by (nonlinear_arith)
                requires
                    a == b * q + r,
                    b == -1,
                    r == 0;
        } else {
            assert(isize::MIN <= q <= isize::MAX) by (nonlinear_arith)
                requires
                    a == b * q + r,
                    0 <= r < -b,
                    b <= -2,
                    isize::MIN <= a <= isize::MAX;
        }
    }
}

} // verus!
