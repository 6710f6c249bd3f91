//! A dense, fixed-origin, fixed-dimension rectangular array mapping lattice
//! points to linear row-major storage.

pub mod path;
pub mod region;

use vstd::prelude::*;

verus! {

use crate::coord::R2i;
use crate::coord::V2i;

/// A rectangular array of tiles addressed by lattice point: storage of length
/// `dim.0 * dim.1`, row-major, with point `p` at linear index
/// `(p.1 - origin.1) * dim.0 + (p.0 - origin.0)`.
#[derive(Debug, Clone)]
pub struct Grid<T> {
    array: Vec<T>,
    origin: V2i,
    dim: V2i,
}

/// How a grid operation can fail; every failure is locally recoverable.
#[derive(Debug, Clone, Copy, PartialEq, Eq, Structural)]
pub enum Error {
    /// Construction was asked for a negative extent.
    NegativeDim(V2i),
    /// Construction was given an element count that does not match the area.
    BadDim(V2i, usize),
    /// The point lies outside the grid's rectangle.
    OutOfBounds(V2i),
    /// The linear index lies beyond the storage.
    BadIndex(usize),
}

impl<T> Grid<T> {
    /// The linear storage, in row-major order.
    pub closed spec fn contents(self) -> Seq<T> {
        self.array@
    }

    pub closed spec fn spec_origin(self) -> V2i {
        self.origin
    }

    pub closed spec fn spec_dim(self) -> V2i {
        self.dim
    }

    /// Non-negative extents, storage of exactly the rectangle's area, and an
    /// opposite corner that fits the machine range.
    pub open spec fn wf(self) -> bool {
        &&& 0 <= self.spec_dim().0
        &&& 0 <= self.spec_dim().1
        &&& self.contents().len() == self.spec_dim().0 * self.spec_dim().1
        &&& self.spec_origin().0 + self.spec_dim().0 <= isize::MAX
        &&& self.spec_origin().1 + self.spec_dim().1 <= isize::MAX
    }

    /// The grid's rectangle holds the coordinates `(x, y)`.
    pub open spec fn contains_xy(self, x: int, y: int) -> bool {
        &&& self.spec_origin().0 <= x < self.spec_origin().0 + self.spec_dim().0
        &&& self.spec_origin().1 <= y < self.spec_origin().1 + self.spec_dim().1
    }

    pub open spec fn contains_spec(self, v: V2i) -> bool {
        self.contains_xy(v.0 as int, v.1 as int)
    }

    /// The linear index of the coordinates `(x, y)`.
    pub open spec fn index_xy(self, x: int, y: int) -> int {
        (y - self.spec_origin().1) * self.spec_dim().0 + (x - self.spec_origin().0)
    }

    pub open spec fn index_spec(self, v: V2i) -> int {
        self.index_xy(v.0 as int, v.1 as int)
    }

    /// The x coordinate of the point at linear index `i`.
    pub open spec fn pt_x(self, i: int) -> int {
        self.spec_origin().0 + i % (self.spec_dim().0 as int)
    }

    /// The y coordinate of the point at linear index `i`.
    pub open spec fn pt_y(self, i: int) -> int {
        self.spec_origin().1 + i / (self.spec_dim().0 as int)
    }

    /// The tile stored for point `v`.
    pub open spec fn tile_at(self, v: V2i) -> T {
        self.contents()[self.index_spec(v)]
    }
}

/// Half of the index-point bijection: every point the grid holds maps to an
/// in-range linear index, and back to itself.
pub proof fn lemma_point_of_index_of<T>(g: Grid<T>, v: V2i)
    requires
        g.wf(),
        g.contains_spec(v),
    ensures
        0 <= g.index_spec(v) < g.contents().len(),
        g.pt_x(g.index_spec(v)) == v.0,
        g.pt_y(g.index_spec(v)) == v.1,
{
    let d0 = g.spec_dim().0 as int;
    let d1 = g.spec_dim().1 as int;
    let dx = v.0 - g.spec_origin().0;
    let dy = v.1 - g.spec_origin().1;
    assert(0 <= dy * d0 + dx < d0 * d1) by (nonlinear_arith)
        requires
            0 <= dx < d0,
            0 <= dy < d1;
    vstd::arithmetic::div_mod::lemma_fundamental_div_mod_converse(dy * d0 + dx, d0, dy, dx);
}

/// The other half: every in-range linear index maps to a point the grid
/// holds, and back to itself.
pub proof fn lemma_index_of_point_of<T>(g: Grid<T>, i: int)
    requires
        g.wf(),
        0 <= i < g.contents().len(),
    ensures
        g.contains_xy(g.pt_x(i), g.pt_y(i)),
        g.index_xy(g.pt_x(i), g.pt_y(i)) == i,
{
    let d0 = g.spec_dim().0 as int;
    let d1 = g.spec_dim().1 as int;
    assert(d0 >= 1) by (nonlinear_arith)
        requires
            0 <= d0,
            0 <= d1,
            0 <= i < d0 * d1;
    vstd::arithmetic::div_mod::lemma_fundamental_div_mod(i, d0);
    vstd::arithmetic::div_mod::lemma_mod_bound(i, d0);
    vstd::arithmetic::div_mod::lemma_div_pos_is_pos(i, d0);
    let dy = i / d0;
    let dx = i % d0;
    assert(dy < d1) by (nonlinear_arith)
        requires
            i == d0 * dy + dx,
            0 <= dx < d0,
            0 <= dy,
            i < d0 * d1;
    assert(dy * d0 + dx == i) by (nonlinear_arith)
        requires
            i == d0 * dy + dx;
}

impl<T> Grid<T> {
    /// Builds a grid from an explicit element sequence; fails with
    /// `NegativeDim` on a negative extent and with `BadDim` whenever the
    /// element count differs from `dim.0 * dim.1`, for any non-negative dim.
    pub fn from_vec(v: Vec<T>, origin: V2i, dim: V2i) -> (r: Result<Grid<T>, Error>)
        requires
            dim.is_q1_spec() ==> {
                &&& origin.0 + dim.0 <= isize::MAX
                &&& origin.1 + dim.1 <= isize::MAX
                &&& dim.0 * dim.1 <= usize::MAX
            },
        ensures
            !dim.is_q1_spec() ==> r == Result::<Grid<T>, Error>::Err(Error::NegativeDim(dim)),
            dim.is_q1_spec() && v@.len() != dim.0 * dim.1 ==> r == Result::<Grid<T>, Error>::Err(
                Error::BadDim(dim, v@.len() as usize),
            ),
            dim.is_q1_spec() && v@.len() == dim.0 * dim.1 ==> match r {
                Ok(g) => {
                    &&& g.wf()
                    &&& g.contents() == v@
                    &&& g.spec_origin() == origin
                    &&& g.spec_dim() == dim
                },
                Err(_) => false,
            },
    {
        if !dim.is_q1() {
            return Err(Error::NegativeDim(dim));
        }
        proof {
            assert(0 <= dim.0 * dim.1) by (nonlinear_arith)
                requires
                    0 <= dim.0,
                    0 <= dim.1;
        }
        if (dim.0 as usize) * (dim.1 as usize) != v.len() {
            return Err(Error::BadDim(dim, v.len()));
        }
        Ok(Grid { array: v, origin, dim })
    }

    /// Builds a grid from boxed storage; the same contract as `from_vec`.
    pub fn from_boxed_slice(array: Box<[T]>, origin: V2i, dim: V2i) -> (r: Result<Grid<T>, Error>)
        requires
            dim.is_q1_spec() ==> {
                &&& origin.0 + dim.0 <= isize::MAX
                &&& origin.1 + dim.1 <= isize::MAX
                &&& dim.0 * dim.1 <= usize::MAX
            },
        ensures
            !dim.is_q1_spec() ==> r == Result::<Grid<T>, Error>::Err(Error::NegativeDim(dim)),
            dim.is_q1_spec() && array@.len() != dim.0 * dim.1 ==> r == Result::<Grid<T>, Error>::Err(
                Error::BadDim(dim, array@.len() as usize),
            ),
            dim.is_q1_spec() && array@.len() == dim.0 * dim.1 ==> match r {
                Ok(g) => {
                    &&& g.wf()
                    &&& g.contents() == array@
                    &&& g.spec_origin() == origin
                    &&& g.spec_dim() == dim
                },
                Err(_) => false,
            },
    {
        Grid::from_vec(array.into_vec(), origin, dim)
    }

    /// Builds a grid by invoking `gen` once per lattice point of
    /// `[origin, origin + dim)` in row-major order, collecting the results
    /// positionally; fails only with `NegativeDim`.
    pub fn from_generator<G: Fn(V2i) -> T>(gen: G, origin: V2i, dim: V2i) -> (r: Result<
        Grid<T>,
        Error,
    >)
        requires
            dim.is_q1_spec() ==> {
                &&& origin.0 + dim.0 <= isize::MAX
                &&& origin.1 + dim.1 <= isize::MAX
                &&& dim.0 * dim.1 <= usize::MAX
            },
            forall|p: V2i|
                (origin.0 <= p.0 < origin.0 + dim.0 && origin.1 <= p.1 < origin.1 + dim.1)
                    ==> call_requires(gen, (p,)),
        ensures
            !dim.is_q1_spec() ==> r == Result::<Grid<T>, Error>::Err(Error::NegativeDim(dim)),
            dim.is_q1_spec() ==> match r {
                Ok(g) => {
                    &&& g.wf()
                    &&& g.spec_origin() == origin
                    &&& g.spec_dim() == dim
                    &&& forall|p: V2i|
                        g.contains_spec(p) ==> call_ensures(gen, (p,), #[trigger] g.tile_at(p))
                },
                Err(_) => false,
            },
    {
        if !dim.is_q1() {
            return Err(Error::NegativeDim(dim));
        }
        let o0: isize = origin.0;
        let o1: isize = origin.1;
        let opp0: isize = o0 + dim.0;
        let opp1: isize = o1 + dim.1;
        let ghost d0: int = dim.0 as int;
        let mut arr: Vec<T> = Vec::new();
        let mut y: isize = o1;
        while y < opp1
            invariant
                o1 <= y <= opp1,
                opp0 == o0 + dim.0,
                opp1 == o1 + dim.1,
                0 <= dim.0,
                0 <= dim.1,
                d0 == dim.0 as int,
                dim.0 * dim.1 <= usize::MAX,
                arr@.len() == (y - o1) * d0,
                forall|p: V2i|
                    (o0 <= p.0 < opp0 && o1 <= p.1 < opp1) ==> call_requires(gen, (p,)),
                forall|i: int|
                    0 <= i < arr@.len() ==> call_ensures(
                        gen,
                        (V2i((o0 + i % d0) as isize, (o1 + i / d0) as isize),),
                        #[trigger] arr@[i],
                    ),
            decreases opp1 - y,
        {
            let mut x: isize = o0;
            while x < opp0
                invariant
                    o0 <= x <= opp0,
                    o1 <= y < opp1,
                    opp0 == o0 + dim.0,
                    opp1 == o1 + dim.1,
                    0 <= dim.0,
                    0 <= dim.1,
                    d0 == dim.0 as int,
                    dim.0 * dim.1 <= usize::MAX,
                    arr@.len() == (y - o1) * d0 + (x - o0),
                    forall|p: V2i|
                        (o0 <= p.0 < opp0 && o1 <= p.1 < opp1) ==> call_requires(gen, (p,)),
                    forall|i: int|
                        0 <= i < arr@.len() ==> call_ensures(
                            gen,
                            (V2i((o0 + i % d0) as isize, (o1 + i / d0) as isize),),
                            #[trigger] arr@[i],
                        ),
                decreases opp0 - x,
            {
                proof {
                    assert((y - o1) * d0 + (x - o0) < d0 * (dim.1 as int)) by (nonlinear_arith)
                        requires
                            0 <= x - o0 < d0,
                            0 <= y - o1 && (y - o1) < dim.1 as int;
                    vstd::arithmetic::div_mod::lemma_fundamental_div_mod_converse(
                        (y - o1) * d0 + (x - o0),
                        d0,
                        y - o1,
                        x - o0,
                    );
                }
                let t = gen(V2i(x, y));
                arr.push(t);
                x = x + 1;
            }
            proof {
                assert((y - o1) * d0 + d0 == (y + 1 - o1) * d0) by (nonlinear_arith);
            }
            y = y + 1;
        }
        proof {
            assert((opp1 - o1) * d0 == d0 * (dim.1 as int)) by (nonlinear_arith)
                requires
                    opp1 - o1 == dim.1 as int;
            let g = Grid { array: arr, origin, dim };
            assert forall|p: V2i| g.contains_spec(p) implies call_ensures(
                gen,
                (p,),
                #[trigger] g.tile_at(p),
            ) by {
                lemma_point_of_index_of(g, p);
                let i = g.index_spec(p);
                assert(V2i((o0 + i % d0) as isize, (o1 + i / d0) as isize) == p);
            }
        }
        Ok(Grid { array: arr, origin, dim })
    }

    /// The linear index of `v`, or `OutOfBounds` when the grid does not hold
    /// it.
    pub fn index_of(&self, v: V2i) -> (r: Result<usize, Error>)
        requires
            self.wf(),
        ensures
            self.contains_spec(v) ==> match r {
                Ok(i) => i as int == self.index_spec(v),
                Err(_) => false,
            },
            !self.contains_spec(v) ==> r == Result::<usize, Error>::Err(Error::OutOfBounds(v)),
    {
        let dx = match v.0.checked_sub(self.origin.0) {
            Some(d) => d,
            None => {
                return Err(Error::OutOfBounds(v));
            },
        };
        let dy = match v.1.checked_sub(self.origin.1) {
            Some(d) => d,
            None => {
                return Err(Error::OutOfBounds(v));
            },
        };
        if dx < 0 || dy < 0 || dx >= self.dim.0 || dy >= self.dim.1 {
            return Err(Error::OutOfBounds(v));
        }
        let n: usize = self.array.len();
        proof {
            assert(0 <= (dy as int) * (self.spec_dim().0 as int) + (dx as int) < (
            self.spec_dim().0 as int) * (self.spec_dim().1 as int)) by (nonlinear_arith)
                requires
                    0 <= (dx as int) && (dx as int) < self.spec_dim().0 as int,
                    0 <= (dy as int) && (dy as int) < self.spec_dim().1 as int;
            assert((dy as int) * (self.spec_dim().0 as int) + (dx as int) < n as int);
        }
        Ok((dy as usize) * (self.dim.0 as usize) + (dx as usize))
    }

    /// The point at linear index `index`, or `BadIndex` when the index lies
    /// beyond the storage: the inverse of `index_of` over the grid's
    /// rectangle.
    pub fn v2i_of(&self, index: usize) -> (r: Result<V2i, Error>)
        requires
            self.wf(),
        ensures
            index < self.contents().len() ==> match r {
                Ok(p) => {
                    &&& p.0 as int == self.pt_x(index as int)
                    &&& p.1 as int == self.pt_y(index as int)
                    &&& self.contains_spec(p)
                },
                Err(_) => false,
            },
            index >= self.contents().len() ==> r == Result::<V2i, Error>::Err(
                Error::BadIndex(index),
            ),
    {
        if index >= self.array.len() {
            return Err(Error::BadIndex(index));
        }
        proof {
            assert(self.spec_dim().0 as int >= 1) by (nonlinear_arith)
                requires
                    0 <= self.spec_dim().0,
                    0 <= self.spec_dim().1,
                    0 <= (index as int) && (index as int) < (self.spec_dim().0 as int) * (
                    self.spec_dim().1 as int);
            lemma_index_of_point_of(*self, index as int);
        }
        let d0: usize = self.dim.0 as usize;
        let xo: usize = index % d0;
        let yo: usize = index / d0;
        Ok(V2i(self.origin.0 + (xo as isize), self.origin.1 + (yo as isize)))
    }

    /// Whether the grid's rectangle holds `v`.
    pub fn contains(&self, v: V2i) -> (r: bool)
        requires
            self.wf(),
        ensures
            r == self.contains_spec(v),
    {
        self.index_of(v).is_ok()
    }

    /// Bounds-checked read access to the tile at `v`.
    pub fn get(&self, v: V2i) -> (r: Result<&T, Error>)
        requires
            self.wf(),
        ensures
            self.contains_spec(v) ==> match r {
                Ok(t) => *t == self.tile_at(v),
                Err(_) => false,
            },
            !self.contains_spec(v) ==> match r {
                Ok(_) => false,
                Err(e) => e == Error::OutOfBounds(v),
            },
    {
        match self.index_of(v) {
            Ok(i) => {
                proof {
                    lemma_point_of_index_of(*self, v);
                }
                Ok(&self.array[i])
            },
            Err(e) => Err(e),
        }
    }

    /// Bounds-checked write access: the grid afterwards holds, at `v`,
    /// whatever the caller leaves in the borrow; nothing else moves.
    pub fn get_mut(&mut self, v: V2i) -> (r: Result<&mut T, Error>)
        requires
            old(self).wf(),
        ensures
            final(self).spec_origin() == old(self).spec_origin(),
            final(self).spec_dim() == old(self).spec_dim(),
            old(self).contains_spec(v) ==> match r {
                Ok(t) => {
                    &&& *t == old(self).tile_at(v)
                    &&& final(self).contents() == old(self).contents().update(
                        old(self).index_spec(v),
                        *final(t),
                    )
                    &&& final(self).wf()
                },
                Err(_) => false,
            },
            !old(self).contains_spec(v) ==> match r {
                Ok(_) => false,
                Err(e) => e == Error::OutOfBounds(v) && *final(self) == *old(self),
            },
    {
        match self.index_of(v) {
            Ok(i) => {
                proof {
                    lemma_point_of_index_of(*self, v);
                }
                Ok(&mut self.array[i])
            },
            Err(e) => Err(e),
        }
    }

    /// The backing storage, row-major.
    pub fn array(&self) -> (r: &[T])
        ensures
            r@ == self.contents(),
    {
        self.array.as_slice()
    }

    /// Mutable access to the backing storage, row-major.
    pub fn array_mut(&mut self) -> (r: &mut [T])
        ensures
            r@ == old(self).contents(),
            final(self).contents() == final(r)@,
            final(self).spec_origin() == old(self).spec_origin(),
            final(self).spec_dim() == old(self).spec_dim(),
            old(self).wf() && final(r)@.len() == old(self).contents().len() ==> final(self).wf(),
    {
        self.array.as_mut_slice()
    }

    /// Builds a grid whose every tile is the element type's default value.
    pub fn from_default(origin: V2i, dim: V2i) -> (r: Result<Grid<T>, Error>) where
        T: Default,

        requires
            dim.is_q1_spec() ==> {
                &&& origin.0 + dim.0 <= isize::MAX
                &&& origin.1 + dim.1 <= isize::MAX
                &&& dim.0 * dim.1 <= usize::MAX
            },
        ensures
            !dim.is_q1_spec() ==> r == Result::<Grid<T>, Error>::Err(Error::NegativeDim(dim)),
            dim.is_q1_spec() ==> match r {
                Ok(g) => {
                    &&& g.wf()
                    &&& g.spec_origin() == origin
                    &&& g.spec_dim() == dim
                    &&& forall|i: int|
                        0 <= i < g.contents().len() ==> T::default.ensures(
                            (),
                            #[trigger] g.contents()[i],
                        )
                },
                Err(_) => false,
            },
    {
        if !dim.is_q1() {
            return Err(Error::NegativeDim(dim));
        }
        proof {
            assert(0 <= dim.0 * dim.1) by (nonlinear_arith)
                requires
                    0 <= dim.0,
                    0 <= dim.1;
        }
        let n: usize = (dim.0 as usize) * (dim.1 as usize);
        let mut arr: Vec<T> = Vec::new();
        let mut i: usize = 0;
        while i < n
            invariant
                i <= n,
                arr@.len() == i,
                forall|j: int| 0 <= j < i ==> T::default.ensures((), #[trigger] arr@[j]),
            decreases n - i,
        {
            arr.push(T::default());
            i = i + 1;
        }
        Ok(Grid { array: arr, origin, dim })
    }

    /// The grid's covering rectangle, `[origin, origin + dim)`.
    pub fn rect(&self) -> (r: R2i)
        requires
            self.wf(),
        ensures
            r.wf(),
            r.spec_origin() == self.spec_origin(),
            r.spec_dim() == self.spec_dim(),
    {
        R2i::origin_dim(self.origin, self.dim)
    }
}

} // verus!
