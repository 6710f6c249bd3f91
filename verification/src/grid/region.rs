//! A sparse mapping from chunk coordinates to dense grids, giving the
//! illusion of an infinite plane: chunks are created the first time a write
//! (or allocating read) touches them, and persist for the region's lifetime.

use vstd::prelude::*;

verus! {

use core::marker::PhantomData;
use crate::coord::V2i;
use crate::grid::Grid;
use crate::pmap::PointMap;
use crate::pmap::lemma_map_len;

/// A strategy producing the initial content of a newly touched chunk, from
/// the invoking point, the chunk coordinate, and the chunk's rectangle.
/// Ownership of the strategy belongs to the region for its lifetime.
pub trait GridGen<T>: Sized {
    /// Whether the generator is in a state fit to be invoked; regions only
    /// carry generators for which this holds, and invocations keep it.
    open spec fn ready(&self) -> bool {
        true
    }

    /// The content the generator would produce, row-major over the chunk's
    /// rectangle: a function of the generator's state and the arguments, so
    /// equal states and arguments yield equal chunks; left arbitrary until
    /// an implementation says otherwise.
    open spec fn content(&self, invoking: V2i, chunk: V2i, origin: V2i, dim: V2i) -> Seq<T> {
        arbitrary()
    }

    /// Produces the grid for a newly touched chunk.
    fn generate(&mut self, invoking: V2i, chunk: V2i, origin: V2i, dim: V2i) -> (g: Grid<T>)
        requires
            old(self).ready(),
            dim.is_strict_q1_spec(),
            origin.0 + dim.0 <= isize::MAX,
            origin.1 + dim.1 <= isize::MAX,
            dim.0 * dim.1 <= usize::MAX,
        ensures
            g.wf(),
            g.spec_origin() == origin,
            g.spec_dim() == dim,
            g.contents() == old(self).content(invoking, chunk, origin, dim),
            final(self).ready(),
    ;
}

/// The placeholder generator of a region built without one; it is never
/// invoked.
#[derive(Debug, Clone, Copy)]
pub struct NoGen;

impl<T> GridGen<T> for NoGen {
    open spec fn ready(&self) -> bool {
        false
    }

    open spec fn content(&self, invoking: V2i, chunk: V2i, origin: V2i, dim: V2i) -> Seq<T> {
        Seq::empty()
    }

    fn generate(&mut self, invoking: V2i, chunk: V2i, origin: V2i, dim: V2i) -> (g: Grid<T>) {
        vstd::pervasive::unreached()
    }
}

/// How region construction can fail.
#[derive(Debug, Clone, Copy, PartialEq, Eq, Structural)]
pub enum Error {
    /// The chunk size is not strictly positive on both axes.
    NonPositiveDim(V2i),
}

/// The chunk coordinate owning `v`: componentwise Euclidean quotient by the
/// chunk size.
pub open spec fn chunk_index_spec(gs: V2i, v: V2i) -> V2i {
    V2i(((v.0 as int) / (gs.0 as int)) as isize, ((v.1 as int) / (gs.1 as int)) as isize)
}

/// The in-chunk offset of `v`: componentwise Euclidean remainder, in
/// `[0, gs)` on each axis whatever the sign of `v`.
pub open spec fn offset_spec(gs: V2i, v: V2i) -> V2i {
    V2i(((v.0 as int) % (gs.0 as int)) as isize, ((v.1 as int) % (gs.1 as int)) as isize)
}

/// The origin of the chunk at chunk coordinate `k`.
pub open spec fn chunk_origin_spec(gs: V2i, k: V2i) -> V2i {
    V2i((k.0 * gs.0) as isize, (k.1 * gs.1) as isize)
}

/// A point has room for a whole chunk on either side of it: the margin under
/// which chunk allocation arithmetic stays inside the machine range.
pub open spec fn chunk_fits(gs: V2i, v: V2i) -> bool {
    &&& v.0 + gs.0 <= isize::MAX
    &&& v.1 + gs.1 <= isize::MAX
    &&& isize::MIN + gs.0 <= v.0
    &&& isize::MIN + gs.1 <= v.1
}

/// A chunk stored under coordinate `k` covers exactly the rectangle
/// `[k * gs, (k + 1) * gs)` and keeps a unit margin inside the machine range.
pub open spec fn chunk_wf<T>(gs: V2i, k: V2i, g: Grid<T>) -> bool {
    &&& g.wf()
    &&& g.spec_origin().0 == k.0 * gs.0
    &&& g.spec_origin().1 == k.1 * gs.1
    &&& g.spec_dim() == gs
    &&& isize::MIN < k.0 * gs.0
    &&& isize::MIN < k.1 * gs.1
}

/// Chunk coordinate and offset decompose a point exactly:
/// `chunk * gs + offset == p` with the offset in `[0, gs)` componentwise,
/// for every point, negative coordinates included.
pub proof fn lemma_chunk_decomposition(gs: V2i, v: V2i)
    requires
        gs.is_strict_q1_spec(),
    ensures
        gs.0 * ((v.0 as int) / (gs.0 as int)) + (v.0 as int) % (gs.0 as int) == v.0 as int,
        gs.1 * ((v.1 as int) / (gs.1 as int)) + (v.1 as int) % (gs.1 as int) == v.1 as int,
        0 <= (v.0 as int) % (gs.0 as int) < gs.0 as int,
        0 <= (v.1 as int) % (gs.1 as int) < gs.1 as int,
        isize::MIN <= (v.0 as int) / (gs.0 as int) <= isize::MAX,
        isize::MIN <= (v.1 as int) / (gs.1 as int) <= isize::MAX,
{
    vstd::arithmetic::div_mod::lemma_fundamental_div_mod(v.0 as int, gs.0 as int);
    vstd::arithmetic::div_mod::lemma_fundamental_div_mod(v.1 as int, gs.1 as int);
    vstd::arithmetic::div_mod::lemma_mod_bound(v.0 as int, gs.0 as int);
    vstd::arithmetic::div_mod::lemma_mod_bound(v.1 as int, gs.1 as int);
    crate::coord::lemma_euclid_in_range(v.0 as int, gs.0 as int);
    crate::coord::lemma_euclid_in_range(v.1 as int, gs.1 as int);
}

/// Under `chunk_fits`, the owning chunk's whole rectangle stays inside the
/// machine range, with a unit margin below.
pub proof fn lemma_chunk_origin_bounds(gs: V2i, v: V2i)
    requires
        gs.is_strict_q1_spec(),
        chunk_fits(gs, v),
    ensures
        ({
            let k = chunk_index_spec(gs, v);
            let o = chunk_origin_spec(gs, k);
            &&& k.0 as int == (v.0 as int) / (gs.0 as int)
            &&& k.1 as int == (v.1 as int) / (gs.1 as int)
            &&& isize::MIN < k.0 * gs.0 <= v.0
            &&& isize::MIN < k.1 * gs.1 <= v.1
            &&& k.0 * gs.0 + gs.0 <= isize::MAX
            &&& k.1 * gs.1 + gs.1 <= isize::MAX
            &&& o.0 == k.0 * gs.0
            &&& o.1 == k.1 * gs.1
        }),
{
    lemma_chunk_decomposition(gs, v);
    let q0 = (v.0 as int) / (gs.0 as int);
    let q1 = (v.1 as int) / (gs.1 as int);
    let r0 = (v.0 as int) % (gs.0 as int);
    let r1 = (v.1 as int) % (gs.1 as int);
    let k = chunk_index_spec(gs, v);
    assert(k.0 as int == q0 && k.1 as int == q1);
    assert(k.0 * gs.0 == gs.0 * q0 && k.1 * gs.1 == gs.1 * q1) by (nonlinear_arith)
        requires
            k.0 as int == q0 && k.1 as int == q1;
    assert(k.0 * gs.0 == v.0 - r0);
    assert(k.1 * gs.1 == v.1 - r1);
}

/// A sparse, lazily allocated plane of tiles: a fixed strictly positive
/// chunk size, a map from chunk coordinate to chunk grid, and an optional
/// generator seeding newly touched chunks.
#[derive(Debug)]
pub struct Region<T, G = NoGen> {
    grid_size: V2i,
    grids: PointMap<Grid<T>>,
    grid_gen: Option<G>,
}

/// Builder for a region: chunk size and optional generator.
#[derive(Debug)]
pub struct RegionConfig<T, G = NoGen> {
    grid_size: V2i,
    grid_gen: Option<G>,
    _t: PhantomData<T>,
}

impl<T, G> Region<T, G> {
    pub closed spec fn spec_grid_size(self) -> V2i {
        self.grid_size
    }

    pub closed spec fn chunks(self) -> PointMap<Grid<T>> {
        self.grids
    }

    pub closed spec fn spec_gen(self) -> Option<G> {
        self.grid_gen
    }

    /// The chunk map as a mathematical map.
    pub open spec fn chunk_map(self) -> Map<V2i, Grid<T>> {
        self.chunks()@
    }

    /// The chunk owning `v` exists.
    pub open spec fn has_chunk(self, v: V2i) -> bool {
        self.chunk_map().contains_key(chunk_index_spec(self.spec_grid_size(), v))
    }

    /// The tile stored for `v`, or `None` while its chunk is unallocated.
    pub open spec fn spec_get(self, v: V2i) -> Option<T> {
        if self.has_chunk(v) {
            Some(self.chunk_map()[chunk_index_spec(self.spec_grid_size(), v)].tile_at(v))
        } else {
            None
        }
    }
}

impl<T, G: GridGen<T>> Region<T, G> {
    /// Strictly positive chunk size of a representable area, well-formed
    /// chunk storage, every chunk shaped by its coordinate, and a generator
    /// that stays ready.
    pub open spec fn wf(self) -> bool {
        &&& self.spec_grid_size().is_strict_q1_spec()
        &&& self.spec_grid_size().0 * self.spec_grid_size().1 <= usize::MAX
        &&& self.chunks().wf()
        &&& forall|k: V2i| #[trigger]
            self.chunk_map().contains_key(k) ==> chunk_wf(
                self.spec_grid_size(),
                k,
                self.chunk_map()[k],
            )
        &&& (self.spec_gen() matches Some(g) ==> g.ready())
    }
}

impl<T, G: GridGen<T>> RegionConfig<T, G> {
    pub closed spec fn spec_grid_size(self) -> V2i {
        self.grid_size
    }

    pub closed spec fn spec_gen(self) -> Option<G> {
        self.grid_gen
    }

    /// The same configuration with the given chunk size.
    pub fn with_grid_size(self, grid_size: V2i) -> (r: RegionConfig<T, G>)
        ensures
            r.spec_grid_size() == grid_size,
            r.spec_gen() == self.spec_gen(),
    {
        RegionConfig { grid_size, grid_gen: self.grid_gen, _t: PhantomData }
    }

    /// The same configuration with the given generator, or none.
    pub fn with_grid_gen<G2: GridGen<T>>(self, grid_gen: Option<G2>) -> (r: RegionConfig<T, G2>)
        ensures
            r.spec_grid_size() == self.spec_grid_size(),
            r.spec_gen() == grid_gen,
    {
        RegionConfig { grid_size: self.grid_size, grid_gen, _t: PhantomData }
    }

    /// Builds the region: fails with `NonPositiveDim` unless the chunk size
    /// is strictly positive on both axes; the fresh region holds no chunks.
    pub fn build(self) -> (r: Result<Region<T, G>, Error>)
        requires
            self.spec_gen() matches Some(g) ==> g.ready(),
            self.spec_grid_size().is_strict_q1_spec() ==> self.spec_grid_size().0
                * self.spec_grid_size().1 <= usize::MAX,
        ensures
            !self.spec_grid_size().is_strict_q1_spec() ==> r == Result::<Region<T, G>, Error>::Err(
                Error::NonPositiveDim(self.spec_grid_size()),
            ),
            self.spec_grid_size().is_strict_q1_spec() ==> match r {
                Ok(reg) => {
                    &&& reg.wf()
                    &&& reg.spec_grid_size() == self.spec_grid_size()
                    &&& reg.chunk_map() == Map::<V2i, Grid<T>>::empty()
                    &&& reg.chunks().kvs().len() == 0
                    &&& reg.spec_gen() == self.spec_gen()
                },
                Err(_) => false,
            },
    {
        if !self.grid_size.is_strict_q1() {
            return Err(Error::NonPositiveDim(self.grid_size));
        }
        Ok(Region { grid_size: self.grid_size, grids: PointMap::new(), grid_gen: self.grid_gen })
    }
}

/// The row-major position of `v` inside its owning chunk.
pub open spec fn chunk_slot(gs: V2i, v: V2i) -> int {
    ((v.1 as int) % (gs.1 as int)) * (gs.0 as int) + ((v.0 as int) % (gs.0 as int))
}

/// `post` is `pre` with the chunk at `ci` replaced by `g` and nothing else
/// changed.
pub open spec fn chunk_updated<T, G>(
    pre: Region<T, G>,
    post: Region<T, G>,
    ci: V2i,
    g: Grid<T>,
) -> bool {
    &&& post.spec_grid_size() == pre.spec_grid_size()
    &&& post.chunk_map().contains_key(ci)
    &&& post.chunk_map()[ci] == g
    &&& forall|k: V2i|
        k != ci ==> ((#[trigger] post.chunk_map().contains_key(k)) <==> pre.chunk_map().contains_key(
            k,
        ))
    &&& forall|k: V2i|
        k != ci && pre.chunk_map().contains_key(k) ==> (#[trigger] post.chunk_map()[k])
            == pre.chunk_map()[k]
}

/// The raw effect of writing `x` at `v`: the owning chunk exists afterwards,
/// is shaped by its coordinate, holds `x` in `v`'s slot, and — when it
/// already existed — keeps every other slot; no other chunk moves.
pub open spec fn write_effect<T, G>(pre: Region<T, G>, post: Region<T, G>, v: V2i, x: T) -> bool {
    let gs = pre.spec_grid_size();
    let ci = chunk_index_spec(gs, v);
    let newg = post.chunk_map()[ci];
    &&& chunk_updated(pre, post, ci, newg)
    &&& newg.wf()
    &&& newg.spec_origin() == chunk_origin_spec(gs, ci)
    &&& newg.spec_dim() == gs
    &&& 0 <= chunk_slot(gs, v) < newg.contents().len()
    &&& newg.contents()[chunk_slot(gs, v)] == x
    &&& (pre.has_chunk(v) ==> forall|i: int|
        0 <= i < newg.contents().len() && i != chunk_slot(gs, v) ==> (#[trigger] newg.contents()[i])
            == pre.chunk_map()[ci].contents()[i])
}

/// Replacing one chunk by a chunk of the right shape keeps the region
/// well-formed.
pub broadcast proof fn lemma_chunk_updated_wf<T, G: GridGen<T>>(
    pre: Region<T, G>,
    post: Region<T, G>,
    ci: V2i,
    g: Grid<T>,
)
    requires
        pre.wf(),
        #[trigger] chunk_updated(pre, post, ci, g),
        chunk_wf(pre.spec_grid_size(), ci, g),
        post.chunks().wf(),
        post.spec_gen() matches Some(gg) ==> gg.ready(),
    ensures
        post.wf(),
{
    assert forall|k: V2i| #[trigger] post.chunk_map().contains_key(k) implies chunk_wf(
        post.spec_grid_size(),
        k,
        post.chunk_map()[k],
    ) by {
        if k != ci {
            assert(pre.chunk_map().contains_key(k));
            assert(chunk_wf(pre.spec_grid_size(), k, pre.chunk_map()[k]));
            assert(post.chunk_map()[k] == pre.chunk_map()[k]);
        }
    }
}

/// Points of one chunk occupy distinct slots: inside chunk `ci` of a
/// well-formed region, the slot of a point determines the point.
proof fn lemma_slot_of_point<T>(gs: V2i, ci: V2i, g: Grid<T>, v: V2i)
    requires
        gs.is_strict_q1_spec(),
        chunk_wf(gs, ci, g),
        chunk_index_spec(gs, v) == ci,
    ensures
        g.contains_spec(v),
        g.index_spec(v) == chunk_slot(gs, v),
        0 <= chunk_slot(gs, v) < g.contents().len(),
        g.pt_x(chunk_slot(gs, v)) == v.0 as int,
        g.pt_y(chunk_slot(gs, v)) == v.1 as int,
{
    lemma_chunk_decomposition(gs, v);
    let q0 = (v.0 as int) / (gs.0 as int);
    let q1 = (v.1 as int) / (gs.1 as int);
    let r0 = (v.0 as int) % (gs.0 as int);
    let r1 = (v.1 as int) % (gs.1 as int);
    assert(ci.0 as int == q0 && ci.1 as int == q1);
    assert(ci.0 * gs.0 == gs.0 * q0 && ci.1 * gs.1 == gs.1 * q1) by (nonlinear_arith)
        requires
            ci.0 as int == q0 && ci.1 as int == q1;
    assert(g.spec_origin().0 == v.0 - r0);
    assert(g.spec_origin().1 == v.1 - r1);
    assert(g.contains_spec(v));
    crate::grid::lemma_point_of_index_of(g, v);
}

/// Writing a tile, then reading: a region changed by `write_effect` returns
/// the written value at the written point, keeps every other point of every
/// chunk it already had, and leaves every other chunk untouched.
pub proof fn lemma_write_round_trip<T, G: GridGen<T>>(
    pre: Region<T, G>,
    post: Region<T, G>,
    v: V2i,
    x: T,
)
    requires
        pre.wf(),
        chunk_fits(pre.spec_grid_size(), v),
        write_effect(pre, post, v, x),
    ensures
        post.spec_get(v) == Some(x),
        forall|q: V2i|
            chunk_index_spec(pre.spec_grid_size(), q) != chunk_index_spec(
                pre.spec_grid_size(),
                v,
            ) ==> #[trigger] post.spec_get(q) == pre.spec_get(q),
        forall|q: V2i| q != v && pre.has_chunk(q) ==> #[trigger] post.spec_get(q) == pre.spec_get(q),
{
    let gs = pre.spec_grid_size();
    let ci = chunk_index_spec(gs, v);
    let newg = post.chunk_map()[ci];
    assert(chunk_wf(gs, ci, newg)) by {
        lemma_chunk_origin_bounds(gs, v);
    }
    lemma_slot_of_point(gs, ci, newg, v);
    assert(post.spec_get(v) == Some(x));
    assert forall|q: V2i|
        chunk_index_spec(gs, q) != ci implies #[trigger] post.spec_get(q) == pre.spec_get(q) by {
        let cq = chunk_index_spec(gs, q);
        assert(post.chunk_map().contains_key(cq) <==> pre.chunk_map().contains_key(cq));
    }
    assert forall|q: V2i| q != v && pre.has_chunk(q) implies #[trigger] post.spec_get(q)
        == pre.spec_get(q) by {
        let cq = chunk_index_spec(gs, q);
        if cq == ci {
            let oldg = pre.chunk_map()[ci];
            lemma_slot_of_point(gs, ci, oldg, q);
            lemma_slot_of_point(gs, ci, newg, q);
            if chunk_slot(gs, q) == chunk_slot(gs, v) {
                lemma_slot_of_point(gs, ci, newg, v);
                crate::grid::lemma_index_of_point_of(newg, chunk_slot(gs, q));
                assert(newg.pt_x(newg.index_spec(q)) == q.0 as int);
                assert(newg.pt_x(newg.index_spec(v)) == v.0 as int);
                assert(newg.pt_y(newg.index_spec(q)) == q.1 as int);
                assert(newg.pt_y(newg.index_spec(v)) == v.1 as int);
                assert(q == v);
            }
            assert(post.spec_get(q) == Some(newg.contents()[chunk_slot(gs, q)]));
            assert(pre.spec_get(q) == Some(oldg.contents()[chunk_slot(gs, q)]));
        }
    }
}

impl<T: Default, G: GridGen<T>> Region<T, G> {
    /// The fixed chunk size.
    pub fn grid_size(&self) -> (r: V2i)
        ensures
            r == self.spec_grid_size(),
    {
        self.grid_size
    }

    /// How many chunks have been materialised so far.
    pub fn grids(&self) -> (n: usize)
        requires
            self.wf(),
        ensures
            n == self.chunks().kvs().len(),
            n == self.chunk_map().dom().len(),
            self.chunk_map().dom().finite(),
    {
        proof {
            lemma_map_len(self.chunks().kvs());
        }
        self.grids.len()
    }

    /// The chunk coordinate owning `v`, by componentwise Euclidean division.
    pub fn get_grid_index(&self, v: V2i) -> (r: V2i)
        requires
            self.wf(),
        ensures
            r == chunk_index_spec(self.spec_grid_size(), v),
            r.0 as int == (v.0 as int) / (self.spec_grid_size().0 as int),
            r.1 as int == (v.1 as int) / (self.spec_grid_size().1 as int),
    {
        v.div_euclid(self.grid_size)
    }

    /// The in-chunk offset of `v`, by componentwise Euclidean remainder:
    /// always in `[0, grid_size)` on each axis, negative `v` included.
    pub fn get_grid_offset(&self, v: V2i) -> (r: V2i)
        requires
            self.wf(),
        ensures
            r == offset_spec(self.spec_grid_size(), v),
            r.0 as int == (v.0 as int) % (self.spec_grid_size().0 as int),
            r.1 as int == (v.1 as int) % (self.spec_grid_size().1 as int),
            0 <= r.0 < self.spec_grid_size().0,
            0 <= r.1 < self.spec_grid_size().1,
    {
        proof {
            lemma_chunk_decomposition(self.spec_grid_size(), v);
        }
        v.rem_euclid(self.grid_size)
    }

    /// Read-only lookup of the chunk containing `v`; never allocates.
    pub fn get_grid(&self, v: V2i) -> (r: Option<&Grid<T>>)
        requires
            self.wf(),
        ensures
            match r {
                Some(g) => self.has_chunk(v) && *g == self.chunk_map()[chunk_index_spec(
                    self.spec_grid_size(),
                    v,
                )],
                None => !self.has_chunk(v),
            },
    {
        let gi = self.get_grid_index(v);
        self.grids.get(gi)
    }

    /// The chunk containing `v`, created first — by the generator, else
    /// default-filled — if absent: the sole allocation point.
    #[verifier::rlimit(100)]
    #[verifier::spinoff_prover]
    pub fn get_grid_mut(&mut self, v: V2i) -> (r: &mut Grid<T>)
        requires
            old(self).wf(),
            chunk_fits(old(self).spec_grid_size(), v),
        ensures
            final(self).spec_grid_size() == old(self).spec_grid_size(),
            (final(self).spec_gen() is Some) == (old(self).spec_gen() is Some),
            (*r).wf(),
            (*r).spec_origin() == chunk_origin_spec(
                old(self).spec_grid_size(),
                chunk_index_spec(old(self).spec_grid_size(), v),
            ),
            (*r).spec_dim() == old(self).spec_grid_size(),
            ({
                let gs = old(self).spec_grid_size();
                let ci = chunk_index_spec(gs, v);
                &&& final(self).chunks().wf()
                &&& (final(self).spec_gen() matches Some(g) ==> g.ready())
                &&& chunk_updated(*old(self), *final(self), ci, *final(r))
                &&& (chunk_wf(gs, ci, *final(r)) ==> final(self).wf())
            }),
            old(self).has_chunk(v) ==> {
                &&& *r == old(self).chunk_map()[chunk_index_spec(old(self).spec_grid_size(), v)]
                &&& final(self).chunks().kvs().len() == old(self).chunks().kvs().len()
                &&& final(self).spec_gen() == old(self).spec_gen()
            },
            !old(self).has_chunk(v) ==> {
                let gs = old(self).spec_grid_size();
                let ci = chunk_index_spec(gs, v);
                &&& final(self).chunks().kvs().len() == old(self).chunks().kvs().len() + 1
                &&& (old(self).spec_gen() matches Some(g) ==> (*r).contents() == g.content(
                    v,
                    ci,
                    chunk_origin_spec(gs, ci),
                    gs,
                ))
                &&& (old(self).spec_gen() is None ==> forall|i: int|
                    0 <= i < (*r).contents().len() ==> T::default.ensures(
                        (),
                        #[trigger] (*r).contents()[i],
                    ))
            },
    {
        broadcast use lemma_chunk_updated_wf;

        let gi = self.get_grid_index(v);
        let gs = self.grid_size;
        proof {
            lemma_chunk_origin_bounds(gs, v);
        }
        let ox: isize = gi.0.checked_mul(gs.0).unwrap();
        let oy: isize = gi.1.checked_mul(gs.1).unwrap();
        let present: bool = self.grids.contains(gi);
        if !present {
            let fresh: Grid<T> = match &mut self.grid_gen {
                Some(gen) => gen.generate(v, gi, V2i(ox, oy), gs),
                None => match Grid::<T>::from_default(V2i(ox, oy), gs) {
                    Ok(g) => g,
                    Err(_) => vstd::pervasive::unreached(),
                },
            };
            self.grids.insert(gi, fresh);
        } else {
            proof {
                assert(chunk_wf(old(self).spec_grid_size(), gi, old(self).chunk_map()[gi]));
            }
        }
        match self.grids.get_mut(gi) {
            Some(g) => g,
            None => vstd::pervasive::unreached(),
        }
    }

    /// The tile at `v`, or `None` while the owning chunk is unallocated;
    /// within an existing chunk the lookup never fails.
    pub fn get(&self, v: V2i) -> (r: Option<&T>)
        requires
            self.wf(),
        ensures
            match r {
                Some(t) => self.spec_get(v) == Some(*t),
                None => self.spec_get(v) is None,
            },
    {
        let gi = self.get_grid_index(v);
        match self.grids.get(gi) {
            None => None,
            Some(g) => {
                proof {
                    lemma_slot_of_point(self.spec_grid_size(), gi, *g, v);
                }
                match g.get(v) {
                    Ok(t) => Some(t),
                    Err(_) => vstd::pervasive::unreached(),
                }
            },
        }
    }

    /// A mutable borrow of the tile at `v`, allocating the owning chunk
    /// first if need be: always succeeds, and afterwards the region holds,
    /// at `v`, whatever the caller leaves in the borrow. Touching a fresh
    /// chunk grows the chunk count by exactly one; a write into an existing
    /// chunk grows it by zero.
    pub fn get_mut(&mut self, v: V2i) -> (r: &mut T)
        requires
            old(self).wf(),
            chunk_fits(old(self).spec_grid_size(), v),
        ensures
            final(self).wf(),
            final(self).spec_grid_size() == old(self).spec_grid_size(),
            (final(self).spec_gen() is Some) == (old(self).spec_gen() is Some),
            write_effect(*old(self), *final(self), v, *final(r)),
            old(self).has_chunk(v) ==> {
                &&& Some(*r) == old(self).spec_get(v)
                &&& final(self).chunks().kvs().len() == old(self).chunks().kvs().len()
            },
            !old(self).has_chunk(v) ==> {
                let gs = old(self).spec_grid_size();
                let ci = chunk_index_spec(gs, v);
                let newc = final(self).chunk_map()[ci].contents();
                &&& final(self).chunks().kvs().len() == old(self).chunks().kvs().len() + 1
                &&& (old(self).spec_gen() matches Some(g) ==> *r == g.content(
                    v,
                    ci,
                    chunk_origin_spec(gs, ci),
                    gs,
                )[chunk_slot(gs, v)] && newc == g.content(
                    v,
                    ci,
                    chunk_origin_spec(gs, ci),
                    gs,
                ).update(chunk_slot(gs, v), *final(r)))
                &&& (old(self).spec_gen() is None ==> T::default.ensures((), *r) && forall|i: int|
                    0 <= i < newc.len() && i != chunk_slot(gs, v) ==> T::default.ensures(
                        (),
                        #[trigger] newc[i],
                    ))
            },
    {
        let ghost pre = *self;
        let ghost gs = pre.spec_grid_size();
        let ghost ci = chunk_index_spec(gs, v);
        let g = self.get_grid_mut(v);
        proof {
            lemma_chunk_origin_bounds(gs, v);
            assert(chunk_wf(gs, ci, *g));
            lemma_slot_of_point(gs, ci, *g, v);
        }
        match g.get_mut(v) {
            Ok(t) => t,
            Err(_) => vstd::pervasive::unreached(),
        }
    }

    /// The tile at `v`, allocating the owning chunk first if need be.
    pub fn get_or_create(&mut self, v: V2i) -> (r: &T)
        requires
            old(self).wf(),
            chunk_fits(old(self).spec_grid_size(), v),
        ensures
            final(self).wf(),
            final(self).spec_grid_size() == old(self).spec_grid_size(),
            (final(self).spec_gen() is Some) == (old(self).spec_gen() is Some),
            write_effect(*old(self), *final(self), v, *r),
            old(self).has_chunk(v) ==> {
                &&& Some(*r) == old(self).spec_get(v)
                &&& final(self).chunks().kvs().len() == old(self).chunks().kvs().len()
            },
            !old(self).has_chunk(v) ==> {
                let gs = old(self).spec_grid_size();
                let ci = chunk_index_spec(gs, v);
                let newc = final(self).chunk_map()[ci].contents();
                &&& final(self).chunks().kvs().len() == old(self).chunks().kvs().len() + 1
                &&& (old(self).spec_gen() matches Some(g) ==> *r == g.content(
                    v,
                    ci,
                    chunk_origin_spec(gs, ci),
                    gs,
                )[chunk_slot(gs, v)] && newc == g.content(
                    v,
                    ci,
                    chunk_origin_spec(gs, ci),
                    gs,
                ).update(chunk_slot(gs, v), *r))
                &&& (old(self).spec_gen() is None ==> T::default.ensures((), *r) && forall|i: int|
                    0 <= i < newc.len() && i != chunk_slot(gs, v) ==> T::default.ensures(
                        (),
                        #[trigger] newc[i],
                    ))
            },
    {
        let t = self.get_mut(v);
        &*t
    }
}

impl<T> Default for RegionConfig<T, NoGen> {
    /// A chunk size of 32 by 32 and no generator.
    fn default() -> (r: RegionConfig<T, NoGen>)
        ensures
            r.spec_grid_size() == V2i(32, 32),
            r.spec_gen() is None,
    {
        RegionConfig { grid_size: V2i(32, 32), grid_gen: None, _t: PhantomData }
    }
}

} // verus!
