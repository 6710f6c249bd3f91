//! Uniform-cost A* search over any passability predicate, generic over the
//! movement topology: 4-connected or 8-connected unit steps, cost 1 per edge,
//! with the Manhattan distance to the goal as the ordering heuristic.
//!
//! The heuristic is admissible for 4-connected movement, where returned
//! paths are proved shortest; under 8-connected movement it can
//! overestimate, so returned paths may be non-shortest there, though
//! disconnection is still reported exactly. This mirrors the component's
//! stated behaviour and is deliberately kept.

use vstd::prelude::*;

verus! {

use crate::coord::V2i;
use crate::coord::iabs;
use crate::coord::in_safe_range;
use crate::pmap::PointMap;
use crate::pmap::map_of;
use crate::grid::Grid;
use crate::grid::region::GridGen;
use crate::grid::region::Region;
use crate::grid::region::chunk_index_spec;
use crate::grid::region::chunk_wf;
use crate::grid::region::lemma_chunk_decomposition;

/// A tile type that can say whether it permits passage.
pub trait Traversable {
    /// What the tile answers, as a predicate on its value; left arbitrary
    /// until an implementation says otherwise.
    open spec fn passable(&self) -> bool {
        arbitrary()
    }

    /// Whether the tile permits passage.
    fn can_pass(&self) -> (b: bool)
        ensures
            b == self.passable(),
    ;
}

/// A movement topology, selected by the marker type `T`: which single steps
/// the search may take from a point.
pub trait Neighbors<T>: Sized {
    /// One step of this topology leads from `self` to `other`.
    spec fn is_step(self, other: Self) -> bool;

    /// The point is far enough from the machine range's edge for its
    /// neighbors to be computed.
    spec fn step_ok(self) -> bool;

    /// The candidate neighbor points, in the exact order `neighbors`
    /// appends them; the order fixes the search's tie-breaking.
    spec fn step_seq(self) -> Seq<Self>;

    /// Appends to `nb` exactly `step_seq`, in order: all the points one
    /// step away from `self`, and nothing else.
    fn neighbors(&self, nb: &mut Vec<Self>)
        requires
            self.step_ok(),
        ensures
            final(nb)@ == old(nb)@ + self.step_seq(),
            final(nb)@.len() >= old(nb)@.len(),
            forall|i: int| 0 <= i < old(nb)@.len() ==> final(nb)@[i] == old(nb)@[i],
            forall|i: int|
                old(nb)@.len() <= i < final(nb)@.len() ==> self.is_step(
                    #[trigger] final(nb)@[i],
                ),
            forall|q: Self| #[trigger]
                self.is_step(q) ==> exists|i: int|
                    old(nb)@.len() <= i < final(nb)@.len() && final(nb)@[i] == q,
    ;
}

/// Marker for 4-connected movement: axis-aligned unit steps.
#[derive(Debug, Clone, Copy)]
pub struct L1;

/// Marker for 8-connected movement: unit and diagonal steps.
#[derive(Debug, Clone, Copy)]
pub struct Linf;

impl Neighbors<L1> for V2i {
    open spec fn is_step(self, other: V2i) -> bool {
        iabs(other.0 - self.0) + iabs(other.1 - self.1) == 1
    }

    open spec fn step_ok(self) -> bool {
        in_safe_range(self)
    }

    open spec fn step_seq(self) -> Seq<V2i> {
        seq![
            V2i((self.0 + 1) as isize, self.1),
            V2i(self.0, (self.1 + 1) as isize),
            V2i((self.0 - 1) as isize, self.1),
            V2i(self.0, (self.1 - 1) as isize),
        ]
    }

    fn neighbors(&self, nb: &mut Vec<V2i>) {
        let ghost n0 = nb@.len() as int;
        nb.push(V2i(self.0 + 1, self.1));
        nb.push(V2i(self.0, self.1 + 1));
        nb.push(V2i(self.0 - 1, self.1));
        nb.push(V2i(self.0, self.1 - 1));
        proof {
            assert(nb@ =~= old(nb)@ + <V2i as Neighbors<L1>>::step_seq(*self));
            assert forall|q: V2i| #[trigger] <V2i as Neighbors<L1>>::is_step(*self, q) implies exists|i: int|
                n0 <= i < nb@.len() && nb@[i] == q by {
                if q.0 == self.0 + 1 && q.1 == self.1 {
                    assert(nb@[n0] == q);
                } else if q.0 == self.0 && q.1 == self.1 + 1 {
                    assert(nb@[n0 + 1] == q);
                } else if q.0 == self.0 - 1 && q.1 == self.1 {
                    assert(nb@[n0 + 2] == q);
                } else {
                    assert(q.0 == self.0 && q.1 == self.1 - 1);
                    assert(nb@[n0 + 3] == q);
                }
            }
        }
    }
}

impl Neighbors<Linf> for V2i {
    open spec fn is_step(self, other: V2i) -> bool {
        &&& iabs(other.0 - self.0) <= 1
        &&& iabs(other.1 - self.1) <= 1
        &&& !(other.0 == self.0 && other.1 == self.1)
    }

    open spec fn step_ok(self) -> bool {
        in_safe_range(self)
    }

    open spec fn step_seq(self) -> Seq<V2i> {
        seq![
            V2i((self.0 + 1) as isize, self.1),
            V2i((self.0 + 1) as isize, (self.1 + 1) as isize),
            V2i(self.0, (self.1 + 1) as isize),
            V2i((self.0 - 1) as isize, (self.1 + 1) as isize),
            V2i((self.0 - 1) as isize, self.1),
            V2i((self.0 - 1) as isize, (self.1 - 1) as isize),
            V2i(self.0, (self.1 - 1) as isize),
            V2i((self.0 + 1) as isize, (self.1 - 1) as isize),
        ]
    }

    fn neighbors(&self, nb: &mut Vec<V2i>) {
        let ghost n0 = nb@.len() as int;
        nb.push(V2i(self.0 + 1, self.1));
        nb.push(V2i(self.0 + 1, self.1 + 1));
        nb.push(V2i(self.0, self.1 + 1));
        nb.push(V2i(self.0 - 1, self.1 + 1));
        nb.push(V2i(self.0 - 1, self.1));
        nb.push(V2i(self.0 - 1, self.1 - 1));
        nb.push(V2i(self.0, self.1 - 1));
        nb.push(V2i(self.0 + 1, self.1 - 1));
        proof {
            assert(nb@ =~= old(nb)@ + <V2i as Neighbors<Linf>>::step_seq(*self));
            assert forall|q: V2i| #[trigger] <V2i as Neighbors<Linf>>::is_step(*self, q) implies exists|i: int|
                n0 <= i < nb@.len() && nb@[i] == q by {
                let dx = q.0 - self.0;
                let dy = q.1 - self.1;
                if dx == 1 && dy == 0 {
                    assert(nb@[n0] == q);
                } else if dx == 1 && dy == 1 {
                    assert(nb@[n0 + 1] == q);
                } else if dx == 0 && dy == 1 {
                    assert(nb@[n0 + 2] == q);
                } else if dx == -1 && dy == 1 {
                    assert(nb@[n0 + 3] == q);
                } else if dx == -1 && dy == 0 {
                    assert(nb@[n0 + 4] == q);
                } else if dx == -1 && dy == -1 {
                    assert(nb@[n0 + 5] == q);
                } else if dx == 0 && dy == -1 {
                    assert(nb@[n0 + 6] == q);
                } else {
                    assert(dx == 1 && dy == -1);
                    assert(nb@[n0 + 7] == q);
                }
            }
        }
    }
}

/// How a search can fail.
#[derive(Debug, Clone, Copy, PartialEq, Eq, Structural)]
pub enum Error {
    /// The goal is unreachable from the start under the given passability
    /// and topology.
    Disconnected,
}

/// A sequence of points is a path from `start` to `goal`: non-empty, with
/// the right endpoints, each move a single step of the topology, and every
/// point after the start accepted by `pass`. The start itself is never
/// tested, matching the search, which never tests it either.
pub open spec fn valid_path<N>(
    s: Seq<V2i>,
    start: V2i,
    goal: V2i,
    pass: spec_fn(V2i) -> bool,
) -> bool where V2i: Neighbors<N> {
    &&& s.len() >= 1
    &&& s[0] == start
    &&& s[s.len() - 1] == goal
    &&& forall|i: int|
        0 <= i < s.len() - 1 ==> <V2i as Neighbors<N>>::is_step(#[trigger] s[i], s[i + 1])
    &&& forall|i: int| 1 <= i < s.len() ==> pass(#[trigger] s[i])
}

/// A passability oracle over a finite support: what the search consults,
/// with a spec-level predicate, a finite domain carrying all passable
/// points, and an executable test agreeing with the predicate.
pub trait Passability: Sized {
    /// The oracle's own well-formedness.
    spec fn inv(&self) -> bool;

    /// A finite superset of the passable points.
    spec fn domain(&self) -> Set<V2i>;

    /// Whether `p` may be stepped on.
    spec fn passable(&self, p: V2i) -> bool;

    /// The domain is finite, carries every passable point, and keeps a unit
    /// margin inside the machine range.
    proof fn domain_props(&self)
        requires
            self.inv(),
        ensures
            self.domain().finite(),
            forall|p: V2i| #[trigger] self.passable(p) ==> self.domain().contains(p),
            forall|p: V2i| #[trigger] self.domain().contains(p) ==> in_safe_range(p),
    ;

    /// Tests `p`, agreeing with the predicate.
    fn check(&self, p: V2i) -> (b: bool)
        requires
            self.inv(),
        ensures
            b == self.passable(p),
    ;
}

/// The passability predicate of an oracle, as one spec-level function.
pub open spec fn pass_of<P: Passability>(allow: P) -> spec_fn(V2i) -> bool {
    |q: V2i| allow.passable(q)
}

/// The Manhattan distance between two points, over mathematical integers:
/// the search's ordering heuristic.
pub open spec fn manhattan(a: V2i, b: V2i) -> int {
    iabs(a.0 - b.0) + iabs(a.1 - b.1)
}

/// The heuristic is admissible for this topology: no single step brings a
/// point more than one unit of Manhattan distance closer to `goal`.
pub open spec fn steps_bound_manhattan<N>(goal: V2i) -> bool where V2i: Neighbors<N> {
    forall|a: V2i, b: V2i| #[trigger]
        <V2i as Neighbors<N>>::is_step(a, b) ==> manhattan(a, goal) <= manhattan(b, goal) + 1
}

/// Four-connected unit steps are Manhattan steps, so the heuristic is
/// admissible under `L1` movement and the search returns shortest paths
/// there.
pub proof fn lemma_l1_admissible(goal: V2i)
    ensures
        steps_bound_manhattan::<L1>(goal),
{
    assert forall|a: V2i, b: V2i| #[trigger] <V2i as Neighbors<L1>>::is_step(a, b) implies
        manhattan(a, goal) <= manhattan(b, goal) + 1 by {
        assert(iabs(b.0 - a.0) + iabs(b.1 - a.1) == 1);
    }
}

/// Walking an admissible-topology path to `goal`, the Manhattan distance to
/// `goal` is at most the number of steps still ahead.
proof fn lemma_manhattan_chain<N>(s: Seq<V2i>, goal: V2i, i: int) where V2i: Neighbors<N>
    requires
        steps_bound_manhattan::<N>(goal),
        s.len() >= 1,
        s[s.len() - 1] == goal,
        forall|u: int|
            0 <= u < s.len() - 1 ==> <V2i as Neighbors<N>>::is_step(#[trigger] s[u], s[u + 1]),
        0 <= i < s.len(),
    ensures
        manhattan(s[i], goal) <= s.len() - 1 - i,
    decreases s.len() - i,
{
    if i < s.len() - 1 {
        lemma_manhattan_chain::<N>(s, goal, i + 1);
        assert(<V2i as Neighbors<N>>::is_step(s[i], s[i + 1]));
    }
}

/// The sum of the recorded costs, the heart of the termination measure.
spec fn sum_costs(s: Seq<(V2i, usize)>) -> int
    decreases s.len(),
{
    if s.len() == 0 {
        0
    } else {
        sum_costs(s.drop_last()) + s.last().1
    }
}

proof fn lemma_sum_nonneg(s: Seq<(V2i, usize)>)
    ensures
        sum_costs(s) >= 0,
    decreases s.len(),
{
    if s.len() > 0 {
        lemma_sum_nonneg(s.drop_last());
    }
}

proof fn lemma_sum_push(s: Seq<(V2i, usize)>, k: V2i, v: usize)
    ensures
        sum_costs(s.push((k, v))) == sum_costs(s) + v,
{
    assert(s.push((k, v)).drop_last() =~= s);
}

proof fn lemma_sum_update(s: Seq<(V2i, usize)>, i: int)
    requires
        0 <= i < s.len(),
    ensures
        forall|v: usize| #[trigger] sum_costs(s.update(i, (s[i].0, v))) == sum_costs(s) - s[i].1
            + v,
    decreases s.len(),
{
    assert forall|v: usize| #[trigger] sum_costs(s.update(i, (s[i].0, v))) == sum_costs(s) - s[i].1
        + v by {
        let t = s.update(i, (s[i].0, v));
        if i == s.len() - 1 {
            assert(t.drop_last() =~= s.drop_last());
        } else {
            assert(t.drop_last() =~= s.drop_last().update(i, (s[i].0, v)));
            assert(s.drop_last()[i] == s[i]);
            lemma_sum_update(s.drop_last(), i);
            assert(sum_costs(s.drop_last().update(i, (s.drop_last()[i].0, v))) == sum_costs(
                s.drop_last(),
            ) - s.drop_last()[i].1 + v);
            assert(t.last() == s.last());
        }
    }
}

/// The search has taken everything it can from `k`: every passable
/// topology-neighbor is recorded, at a cost at most one above `k`'s.
pub open spec fn closed_node<N>(
    costm: Map<V2i, usize>,
    pass: spec_fn(V2i) -> bool,
    k: V2i,
) -> bool where V2i: Neighbors<N> {
    forall|q: V2i|
        (#[trigger] <V2i as Neighbors<N>>::is_step(k, q)) && pass(q) ==> costm.contains_key(q)
            && costm[q] <= costm[k] + 1
}

/// No path can leave a closed record: a record holding the start, closed
/// under passable steps, and missing the goal refutes every candidate path.
proof fn lemma_no_escape<N>(
    costm: Map<V2i, usize>,
    pass: spec_fn(V2i) -> bool,
    s: Seq<V2i>,
    start: V2i,
    goal: V2i,
) where V2i: Neighbors<N>
    requires
        costm.contains_key(start),
        !costm.contains_key(goal),
        forall|k: V2i| #[trigger] costm.contains_key(k) ==> closed_node::<N>(costm, pass, k),
    ensures
        !valid_path::<N>(s, start, goal, pass),
    decreases s.len(),
{
    if valid_path::<N>(s, start, goal, pass) {
        if s.len() == 1 {
            assert(start == goal);
            assert(false);
        } else {
            assert(<V2i as Neighbors<N>>::is_step(s[0], s[1]));
            assert(pass(s[1]));
            assert(closed_node::<N>(costm, pass, start));
            assert(costm.contains_key(s[1]));
            let t = s.skip(1);
            assert(t.len() == s.len() - 1);
            assert(forall|i: int| 0 <= i < t.len() ==> #[trigger] t[i] == s[i + 1]);
            assert(valid_path::<N>(t, s[1], goal, pass));
            lemma_no_escape::<N>(costm, pass, t, s[1], goal);
            assert(false);
        }
    }
}

/// Along any candidate path, either its end is already recorded within the
/// path's own length, or some node of the path sits in the open list at a
/// priority no higher than its position plus its Manhattan distance to
/// `goal`.
proof fn lemma_frontier_on_path<N>(
    costm: Map<V2i, usize>,
    openv: Seq<(u128, V2i)>,
    pass: spec_fn(V2i) -> bool,
    goal: V2i,
    s: Seq<V2i>,
    t: int,
) where V2i: Neighbors<N>
    requires
        valid_path::<N>(s, s[0], s[s.len() - 1], pass),
        0 <= t < s.len(),
        forall|u: int| 0 <= u <= t ==> costm.contains_key(#[trigger] s[u]) && costm[s[u]] <= u,
        forall|k: V2i| #[trigger]
            costm.contains_key(k) ==> ((exists|j: int|
                0 <= j < openv.len() && (#[trigger] openv[j]).1 == k && openv[j].0 as int
                    <= costm[k] + manhattan(k, goal)) || closed_node::<N>(costm, pass, k)),
    ensures
        (costm.contains_key(s[s.len() - 1]) && costm[s[s.len() - 1]] <= s.len() - 1) || (exists|
            j: int,
            i: int,
        |
            #![trigger openv[j], s[i]]
            0 <= j < openv.len() && 0 <= i < s.len() && openv[j].1 == s[i] && openv[j].0 as int
                <= i + manhattan(s[i], goal)),
    decreases s.len() - t,
{
    let k = s[t];
    if t == s.len() - 1 {
        assert(costm[s[s.len() - 1]] <= s.len() - 1);
    } else if exists|j: int|
        0 <= j < openv.len() && (#[trigger] openv[j]).1 == k && openv[j].0 as int <= costm[k]
            + manhattan(k, goal) {
        let j0 = choose|j: int|
            0 <= j < openv.len() && (#[trigger] openv[j]).1 == k && openv[j].0 as int <= costm[k]
                + manhattan(k, goal);
        assert(openv[j0].1 == s[t] && openv[j0].0 as int <= t + manhattan(s[t], goal));
    } else {
        assert(closed_node::<N>(costm, pass, k));
        assert(<V2i as Neighbors<N>>::is_step(s[t], s[t + 1]));
        assert(pass(s[t + 1]));
        assert(costm.contains_key(s[t + 1]) && costm[s[t + 1]] <= costm[k] + 1);
        lemma_frontier_on_path::<N>(costm, openv, pass, goal, s, t + 1);
    }
}

/// Recording a strictly better cost for `q` and enqueueing it keeps every
/// other node either enqueued or closed.
proof fn lemma_frontier_after_improve<N>(
    costm0: Map<V2i, usize>,
    costm1: Map<V2i, usize>,
    open0: Seq<(u128, V2i)>,
    open1: Seq<(u128, V2i)>,
    pass: spec_fn(V2i) -> bool,
    goal: V2i,
    current: V2i,
    q: V2i,
    est: usize,
) where V2i: Neighbors<N>
    requires
        costm1 == costm0.insert(q, est),
        costm0.contains_key(q) ==> est < costm0[q],
        open1.len() == open0.len() + 1,
        forall|i: int| 0 <= i < open0.len() ==> open1[i] == open0[i],
        open1[open1.len() - 1].1 == q,
        open1[open1.len() - 1].0 as int <= est + manhattan(q, goal),
        forall|k: V2i| #[trigger]
            costm0.contains_key(k) && k != current ==> ((exists|j: int|
                0 <= j < open0.len() && (#[trigger] open0[j]).1 == k && open0[j].0 as int
                    <= costm0[k] + manhattan(k, goal)) || closed_node::<N>(costm0, pass, k)),
    ensures
        forall|k: V2i| #[trigger]
            costm1.contains_key(k) && k != current ==> ((exists|j: int|
                0 <= j < open1.len() && (#[trigger] open1[j]).1 == k && open1[j].0 as int
                    <= costm1[k] + manhattan(k, goal)) || closed_node::<N>(costm1, pass, k)),
{
    assert forall|k: V2i| #[trigger]
        costm1.contains_key(k) && k != current implies ((exists|j: int|
        0 <= j < open1.len() && (#[trigger] open1[j]).1 == k && open1[j].0 as int <= costm1[k]
            + manhattan(k, goal)) || closed_node::<N>(costm1, pass, k)) by {
        if k == q {
            assert(open1[open1.len() - 1].1 == k && open1[open1.len() - 1].0 as int <= costm1[k]
                + manhattan(k, goal));
        } else {
            assert(costm0.contains_key(k));
            assert(costm1[k] == costm0[k]);
            if exists|j: int|
                0 <= j < open0.len() && (#[trigger] open0[j]).1 == k && open0[j].0 as int
                    <= costm0[k] + manhattan(k, goal) {
                let j0 = choose|j: int|
                    0 <= j < open0.len() && (#[trigger] open0[j]).1 == k && open0[j].0 as int
                        <= costm0[k] + manhattan(k, goal);
                assert(open1[j0].1 == k && open1[j0].0 as int <= costm1[k] + manhattan(k, goal));
            } else {
                assert(closed_node::<N>(costm0, pass, k));
                assert forall|q2: V2i|
                    (#[trigger] <V2i as Neighbors<N>>::is_step(k, q2)) && pass(q2) implies
                    costm1.contains_key(q2) && costm1[q2] <= costm1[k] + 1 by {
                    assert(costm0.contains_key(q2));
                    assert(costm0[q2] <= costm0[k] + 1);
                    if q2 == q {
                        assert(est < costm0[q]);
                    }
                }
            }
        }
    }
}

/// Walks the recorded predecessor links from the goal back to the start and
/// returns the forward path.
#[verifier::loop_isolation(false)]
fn reconstruct<N>(
    back: &PointMap<V2i>,
    cost: &PointMap<usize>,
    start: V2i,
    goal: V2i,
    pass: Ghost<spec_fn(V2i) -> bool>,
) -> (p: Vec<V2i>) where V2i: Neighbors<N>
    requires
        back.wf(),
        cost.wf(),
        cost@.contains_key(start),
        cost@.contains_key(goal),
        forall|k: V2i| #[trigger] back@.contains_key(k) <==> (cost@.contains_key(k) && k != start),
        forall|k: V2i| #[trigger]
            back@.contains_key(k) ==> {
                &&& cost@.contains_key(back@[k])
                &&& cost@[back@[k]] < cost@[k]
                &&& <V2i as Neighbors<N>>::is_step(back@[k], k)
                &&& (pass@)(k)
            },
    ensures
        valid_path::<N>(p@, start, goal, pass@),
        forall|i: int, j: int| 0 <= i < j < p@.len() ==> p@[i] != p@[j],
        p@.len() <= cost@[goal] + 1,
{
    let mut rev: Vec<V2i> = Vec::new();
    let mut cur: V2i = goal;
    rev.push(goal);
    loop
        invariant
            rev@.len() >= 1,
            rev@[0] == goal,
            rev@[rev@.len() - 1] == cur,
            cost@.contains_key(cur),
            forall|i: int|
                0 <= i < rev@.len() - 1 ==> back@.contains_key(#[trigger] rev@[i]) && rev@[i + 1]
                    == back@[rev@[i]],
            forall|i: int, j: int|
                0 <= i < j < rev@.len() ==> cost@[#[trigger] rev@[j]] < cost@[#[trigger] rev@[i]],
            rev@.len() <= cost@[goal] - cost@[cur] + 1,
        decreases cost@[cur],
    {
        match back.get(cur) {
            Some(prev) => {
                let p: V2i = *prev;
                rev.push(p);
                cur = p;
            },
            None => {
                break;
            },
        }
    }
    let n: usize = rev.len();
    let mut out: Vec<V2i> = Vec::new();
    let mut i: usize = n;
    while i > 0
        invariant
            i <= n,
            n == rev@.len(),
            out@.len() == n - i,
            forall|j: int| 0 <= j < out@.len() ==> #[trigger] out@[j] == rev@[n - 1 - j],
        decreases i,
    {
        i = i - 1;
        out.push(rev[i]);
    }
    proof {
        assert(cur == start);
        assert(out@.len() == rev@.len());
        assert forall|i: int, j: int| 0 <= i < j < out@.len() implies out@[i] != out@[j] by {
            let n2 = rev@.len() as int;
            assert(out@[i] == rev@[n2 - 1 - i]);
            assert(out@[j] == rev@[n2 - 1 - j]);
            assert(cost@[rev@[n2 - 1 - i]] < cost@[rev@[n2 - 1 - j]]);
        }
        let s = out@;
        let m = s.len() as int;
        assert(s[0] == rev@[m - 1]);
        assert(s[m - 1] == rev@[0]);
        assert forall|j: int| 0 <= j < m - 1 implies <V2i as Neighbors<N>>::is_step(
            #[trigger] s[j],
            s[j + 1],
        ) by {
            let k = rev@[m - 2 - j];
            assert(back@.contains_key(k));
            assert(rev@[m - 1 - j] == back@[k]);
            assert(s[j] == rev@[m - 1 - j]);
            assert(s[j + 1] == rev@[m - 2 - j]);
        }
        assert forall|j: int| 1 <= j < m implies (pass@)(#[trigger] s[j]) by {
            assert(s[j] == rev@[m - 1 - j]);
            assert(back@.contains_key(rev@[m - 1 - j]));
        }
    }
    out
}

/// Uniform-cost A* from `start` to `goal` over the oracle's passability:
/// returns a path exactly when one exists. Open nodes are ordered by
/// recorded cost plus the Manhattan distance to the goal; stale queue
/// entries are tolerated and the first arrival at the goal is authoritative,
/// so under 8-connected movement the result need not be shortest.
#[verifier::loop_isolation(false)]
#[verifier::rlimit(100)]
pub fn path<N, P: Passability>(start: V2i, goal: V2i, allow: &P) -> (r: Result<
    Vec<V2i>,
    Error,
>) where V2i: Neighbors<N>
    requires
        allow.inv(),
        in_safe_range(start),
        forall|p: V2i| in_safe_range(p) ==> #[trigger] <V2i as Neighbors<N>>::step_ok(p),
    ensures
        match r {
            Ok(p) => valid_path::<N>(p@, start, goal, pass_of(*allow)) && forall|i: int, j: int|
                0 <= i < j < p@.len() ==> p@[i] != p@[j],
            Err(e) => {
                &&& e == Error::Disconnected
                &&& !(exists|s: Seq<V2i>| valid_path::<N>(s, start, goal, pass_of(*allow)))
            },
        },
        start == goal ==> (r matches Ok(p) && p@ == seq![start]),
        steps_bound_manhattan::<N>(goal) ==> (r matches Ok(p) ==> (forall|s: Seq<V2i>|
            valid_path::<N>(s, start, goal, pass_of(*allow)) ==> s.len() >= p@.len())),
{
    if start == goal {
        let mut p: Vec<V2i> = Vec::new();
        p.push(start);
        proof {
            assert(p@ =~= seq![start]);
        }
        return Ok(p);
    }
    let ghost u: Set<V2i> = allow.domain().insert(start);
    proof {
        allow.domain_props();
    }
    let ghost big: int = u.len() as int + 2;

    let mut cost: PointMap<usize> = PointMap::new();
    let mut back: PointMap<V2i> = PointMap::new();
    let mut open: Vec<(u128, V2i)> = Vec::new();
    let mut nb: Vec<V2i> = Vec::new();

    cost.insert(start, 0);
    open.push((0, start));
    proof {
        crate::pmap::lemma_map_len(cost.kvs());
        vstd::set_lib::lemma_len_subset(cost@.dom(), u);
        assert(open@[0].1 == start);
    }

    while open.len() != 0
        invariant
            cost.wf(),
            back.wf(),
            cost@.contains_key(start),
            cost@[start] == 0,
            forall|k: V2i| #[trigger] cost@.contains_key(k) ==> u.contains(k),
            cost.kvs().len() == cost@.dom().len(),
            cost@.dom().len() <= u.len(),
            forall|k: V2i| #[trigger] cost@.contains_key(k) ==> cost@[k] + 1 <= cost.kvs().len(),
            forall|k: V2i| #[trigger]
                back@.contains_key(k) <==> (cost@.contains_key(k) && k != start),
            forall|k: V2i| #[trigger]
                back@.contains_key(k) ==> {
                    &&& cost@.contains_key(back@[k])
                    &&& cost@[back@[k]] < cost@[k]
                    &&& <V2i as Neighbors<N>>::is_step(back@[k], k)
                    &&& allow.passable(k)
                },
            forall|j: int| 0 <= j < open@.len() ==> cost@.contains_key((#[trigger] open@[j]).1),
            forall|j: int|
                0 <= j < open@.len() ==> ((#[trigger] open@[j]).1 == start || open@[j].0 as int
                    >= cost@[open@[j].1] + manhattan(open@[j].1, goal)),
            forall|k: V2i| #[trigger]
                cost@.contains_key(k) ==> ((exists|j: int|
                    0 <= j < open@.len() && (#[trigger] open@[j]).1 == k && open@[j].0 as int
                        <= cost@[k] + manhattan(k, goal)) || closed_node::<N>(
                    cost@,
                    pass_of(*allow),
                    k,
                )),
            cost@.contains_key(goal) ==> exists|j: int|
                0 <= j < open@.len() && (#[trigger] open@[j]).1 == goal,
        decreases big * (u.len() - cost.kvs().len()) + sum_costs(cost.kvs()) + open@.len(),
    {
        proof {
            lemma_sum_nonneg(cost.kvs());
        }
        let mut best: usize = 0;
        let mut i: usize = 1;
        while i < open.len()
            invariant
                open@.len() > 0,
                best < i,
                i <= open@.len(),
                forall|j2: int| 0 <= j2 < i ==> open@[best as int].0 <= (#[trigger] open@[j2]).0,
            decreases open@.len() - i,
        {
            if open[i].0 < open[best].0 {
                best = i;
            }
            i = i + 1;
        }
        let ghost open_pre = open@;
        let visit: (u128, V2i) = open.remove(best);
        let current: V2i = visit.1;

        if current == goal {
            proof {
                if steps_bound_manhattan::<N>(goal) {
                    assert forall|s: Seq<V2i>|
                        valid_path::<N>(s, start, goal, pass_of(*allow)) implies s.len()
                        >= cost@[goal] + 1 by {
                        assert(s[0] == start && cost@.contains_key(s[0]) && cost@[s[0]] <= 0);
                        lemma_frontier_on_path::<N>(
                            cost@,
                            open_pre,
                            pass_of(*allow),
                            goal,
                            s,
                            0,
                        );
                        if !(cost@.contains_key(s[s.len() - 1]) && cost@[s[s.len() - 1]]
                            <= s.len() - 1) {
                            let (j0, i0) = choose|j: int, i2: int|
                                #![trigger open_pre[j], s[i2]]
                                0 <= j < open_pre.len() && 0 <= i2 < s.len() && open_pre[j].1
                                    == s[i2] && open_pre[j].0 as int <= i2 + manhattan(s[i2], goal);
                            lemma_manhattan_chain::<N>(s, goal, i0);
                            assert(open_pre[j0].0 as int <= s.len() - 1);
                            assert(open_pre[best as int].0 <= open_pre[j0].0);
                            assert(open_pre[best as int].1 == current);
                            assert(current != start);
                            assert(open_pre[best as int].0 as int >= cost@[goal] + manhattan(
                                goal,
                                goal,
                            ));
                        }
                    }
                }
            }
            return Ok(reconstruct::<N>(&back, &cost, start, goal, Ghost(pass_of(*allow))));
        }

        proof {
            if cost@.contains_key(goal) {
                let j0 = choose|j: int| 0 <= j < open_pre.len() && (#[trigger] open_pre[j]).1
                    == goal;
                if j0 < best {
                    assert(open@[j0].1 == goal);
                } else {
                    assert(open@[j0 - 1].1 == goal);
                }
            }
            assert(open_pre[best as int].1 == current);
            assert forall|k: V2i| #[trigger]
                cost@.contains_key(k) && k != current implies ((exists|j2: int|
                0 <= j2 < open@.len() && (#[trigger] open@[j2]).1 == k && open@[j2].0 as int
                    <= cost@[k] + manhattan(k, goal)) || closed_node::<N>(
                cost@,
                pass_of(*allow),
                k,
            )) by {
                if !closed_node::<N>(cost@, pass_of(*allow), k) {
                    let j0 = choose|j2: int|
                        0 <= j2 < open_pre.len() && (#[trigger] open_pre[j2]).1 == k && open_pre[
                            j2
                        ].0 as int <= cost@[k] + manhattan(k, goal);
                    assert(j0 != best);
                    if j0 < best {
                        assert(open@[j0] == open_pre[j0]);
                    } else {
                        assert(open@[j0 - 1] == open_pre[j0]);
                    }
                }
            }
            assert forall|j2: int| 0 <= j2 < open@.len() implies ((#[trigger] open@[j2]).1
                == start || open@[j2].0 as int >= cost@[open@[j2].1] + manhattan(
                open@[j2].1,
                goal,
            )) by {
                if j2 < best {
                    assert(open@[j2] == open_pre[j2]);
                } else {
                    assert(open@[j2] == open_pre[j2 + 1]);
                }
            }
        }

        let cl: usize = cost.len();
        let cbase: usize = *cost.get(current).unwrap();
        let ghost phi_mid = big * (u.len() - cost.kvs().len()) + sum_costs(cost.kvs())
            + open@.len();

        nb.clear();
        Neighbors::<N>::neighbors(&current, &mut nb);
        let ncount: usize = nb.len();
        let mut j: usize = 0;
        while j < ncount
            invariant
                ncount == nb@.len(),
                j <= ncount,
                forall|i2: int|
                    0 <= i2 < nb@.len() ==> <V2i as Neighbors<N>>::is_step(
                        current,
                        #[trigger] nb@[i2],
                    ),
                cost.wf(),
                back.wf(),
                cost@.contains_key(start),
                cost@[start] == 0,
                cost@.contains_key(current),
                cost@[current] == cbase,
                forall|k: V2i| #[trigger] cost@.contains_key(k) ==> u.contains(k),
                cost.kvs().len() == cost@.dom().len(),
                cost@.dom().len() <= u.len(),
                forall|k: V2i| #[trigger]
                    cost@.contains_key(k) ==> cost@[k] + 1 <= cost.kvs().len(),
                forall|k: V2i| #[trigger]
                    back@.contains_key(k) <==> (cost@.contains_key(k) && k != start),
                forall|k: V2i| #[trigger]
                    back@.contains_key(k) ==> {
                        &&& cost@.contains_key(back@[k])
                        &&& cost@[back@[k]] < cost@[k]
                        &&& <V2i as Neighbors<N>>::is_step(back@[k], k)
                        &&& allow.passable(k)
                    },
                forall|j2: int|
                    0 <= j2 < open@.len() ==> cost@.contains_key((#[trigger] open@[j2]).1),
                forall|j2: int|
                    0 <= j2 < open@.len() ==> ((#[trigger] open@[j2]).1 == start || open@[j2].0
                        as int >= cost@[open@[j2].1] + manhattan(open@[j2].1, goal)),
                forall|k: V2i| #[trigger]
                    cost@.contains_key(k) && k != current ==> ((exists|j2: int|
                        0 <= j2 < open@.len() && (#[trigger] open@[j2]).1 == k && open@[j2].0
                            as int <= cost@[k] + manhattan(k, goal)) || closed_node::<N>(
                        cost@,
                        pass_of(*allow),
                        k,
                    )),
                forall|i2: int|
                    0 <= i2 < j ==> (allow.passable(#[trigger] nb@[i2])
                        ==> cost@.contains_key(nb@[i2]) && cost@[nb@[i2]] <= cbase + 1),
                cost@.contains_key(goal) ==> exists|j2: int|
                    0 <= j2 < open@.len() && (#[trigger] open@[j2]).1 == goal,
                big * (u.len() - cost.kvs().len()) + sum_costs(cost.kvs()) + open@.len()
                    <= phi_mid,
            decreases ncount - j,
        {
            let q: V2i = nb[j];
            if allow.check(q) {
                let est: usize = cbase + 1;
                let improve: bool = match cost.get(q) {
                    Some(c) => est < *c,
                    None => true,
                };
                if improve {
                    let ghost kvs0 = cost.kvs();
                    let ghost costm0 = cost@;
                    let ghost open0 = open@;
                    let ghost sum0 = sum_costs(kvs0);
                    proof {
                        if cost@.contains_key(q) {
                            crate::pmap::lemma_key_index(kvs0, q);
                            lemma_sum_update(kvs0, crate::pmap::key_index(kvs0, q));
                        } else {
                            lemma_sum_push(kvs0, q, est);
                        }
                    }
                    cost.insert(q, est);
                    back.insert(q, current);
                    let dx: i128 = (q.0 as i128) - (goal.0 as i128);
                    let dy: i128 = (q.1 as i128) - (goal.1 as i128);
                    let ax: i128 = if dx < 0 { -dx } else { dx };
                    let ay: i128 = if dy < 0 { -dy } else { dy };
                    let h: u128 = (ax + ay) as u128;
                    let pri: u128 = (est as u128) + h;
                    open.push((pri, q));
                    proof {
                        assert(h as int == manhattan(q, goal));
                        assert(pri as int == est + manhattan(q, goal));
                        let ki = crate::pmap::key_index(kvs0, q);
                        let len0 = kvs0.len() as int;
                        if costm0.contains_key(q) {
                            assert(kvs0[ki].0 == q);
                            assert(cost.kvs() == kvs0.update(ki, (q, est)));
                            assert(sum_costs(kvs0.update(ki, (kvs0[ki].0, est))) == sum0
                                - kvs0[ki].1 + est);
                            assert(kvs0[ki].1 == costm0[q]);
                            assert(sum_costs(cost.kvs()) == sum0 - costm0[q] + est);
                            crate::pmap::lemma_map_len(cost.kvs());
                        } else {
                            assert(cost.kvs() == kvs0.push((q, est)));
                            assert(sum_costs(cost.kvs()) == sum0 + est);
                            crate::pmap::lemma_map_len(kvs0);
                            crate::pmap::lemma_map_len(cost.kvs());
                            vstd::set_lib::lemma_len_subset(cost@.dom(), u);
                            assert(big * (u.len() - (len0 + 1)) == big * (u.len() - len0)
                                - big) by (nonlinear_arith);
                            assert(est <= u.len());
                        }
                        assert(open@[open@.len() - 1].1 == q);
                        lemma_frontier_after_improve::<N>(
                            costm0,
                            cost@,
                            open0,
                            open@,
                            pass_of(*allow),
                            goal,
                            current,
                            q,
                            est,
                        );
                        if cost@.contains_key(goal) {
                            if costm0.contains_key(goal) {
                                let j0 = choose|j2: int|
                                    0 <= j2 < open0.len() && (#[trigger] open0[j2]).1 == goal;
                                assert(open@[j0].1 == goal);
                            } else {
                                assert(q == goal);
                                assert(open@[open@.len() - 1].1 == goal);
                            }
                        }
                    }
                }
            }
            j = j + 1;
        }
        proof {
            assert(closed_node::<N>(cost@, pass_of(*allow), current)) by {
                assert forall|q2: V2i|
                    (#[trigger] <V2i as Neighbors<N>>::is_step(current, q2)) && (pass_of(
                    *allow,
                ))(q2) implies cost@.contains_key(q2) && cost@[q2] <= cost@[current] + 1 by {
                    let i2 = choose|i2: int| 0 <= i2 < nb@.len() && nb@[i2] == q2;
                    assert(allow.passable(nb@[i2]));
                }
            }
            lemma_sum_nonneg(cost.kvs());
        }
    }
    proof {
        assert forall|k: V2i| #[trigger] cost@.contains_key(k) implies closed_node::<N>(
            cost@,
            pass_of(*allow),
            k,
        ) by {
            assert(open@.len() == 0);
        }
        assert(!cost@.contains_key(goal));
        if exists|s: Seq<V2i>| valid_path::<N>(s, start, goal, pass_of(*allow)) {
            let s = choose|s: Seq<V2i>| valid_path::<N>(s, start, goal, pass_of(*allow));
            lemma_no_escape::<N>(cost@, pass_of(*allow), s, start, goal);
        }
    }
    Err(Error::Disconnected)
}

/// A passability probe that may change its carrier as it answers: the shape
/// of an allocating lookup into a lazily built world. Once the carrier has
/// decided a point, the answer stands for good, so a walk of probed points
/// remains a walk through the carrier's final state.
pub trait ProbePass: Sized {
    /// The carrier's own well-formedness, kept by every probe.
    spec fn inv(&self) -> bool;

    /// Whether `p` may be stepped on, in the carrier's current state.
    spec fn passable(&self, p: V2i) -> bool;

    /// Whether the carrier has fixed its answer for `p` for good.
    spec fn decided(&self, p: V2i) -> bool;

    /// What a probe may do to the carrier; reflexive and transitive.
    spec fn evolves(pre: Self, post: Self) -> bool;

    proof fn evolves_refl(a: Self)
        ensures
            Self::evolves(a, a),
    ;

    proof fn evolves_trans(a: Self, b: Self, c: Self)
        requires
            Self::evolves(a, b),
            Self::evolves(b, c),
        ensures
            Self::evolves(a, c),
    ;

    /// A decided point keeps its answer as the carrier evolves.
    proof fn evolves_sticky(a: Self, b: Self, p: V2i)
        requires
            Self::evolves(a, b),
            a.decided(p),
        ensures
            b.decided(p),
            b.passable(p) == a.passable(p),
    ;

    /// Passable points keep a unit margin inside the machine range, and
    /// points on the range's very edge are decided impassable from the
    /// start.
    proof fn range_props(&self)
        requires
            self.inv(),
        ensures
            forall|p: V2i| #[trigger] self.passable(p) ==> in_safe_range(p),
            forall|p: V2i| !in_safe_range(p) ==> #[trigger] self.decided(p),
    ;

    /// Tests a point, possibly growing the carrier; afterwards the point is
    /// decided and the answer names its passability in the carrier's new
    /// state.
    fn probe(&mut self, p: V2i) -> (b: bool)
        requires
            old(self).inv(),
            in_safe_range(p),
        ensures
            final(self).inv(),
            Self::evolves(*old(self), *final(self)),
            final(self).decided(p),
            b == final(self).passable(p),
    ;
}

/// The probe's passability in a given carrier state, as one spec-level
/// function.
pub open spec fn probe_pass_of<M: ProbePass>(m: M) -> spec_fn(V2i) -> bool {
    |q: V2i| m.passable(q)
}

/// The search has taken everything it can from `k`, against a carrier that
/// has decided every neighbor: each passable one is recorded at a cost at
/// most one above `k`'s.
pub open spec fn settled_node<N, M: ProbePass>(
    costm: Map<V2i, usize>,
    m: M,
    k: V2i,
) -> bool where V2i: Neighbors<N> {
    forall|q: V2i|
        #[trigger] <V2i as Neighbors<N>>::is_step(k, q) ==> m.decided(q) && (m.passable(q)
            ==> costm.contains_key(q) && costm[q] <= costm[k] + 1)
}

/// Recording a strictly better cost for `q` and enqueueing it keeps every
/// other node either enqueued or settled.
proof fn lemma_settled_after_improve<N, M: ProbePass>(
    costm0: Map<V2i, usize>,
    costm1: Map<V2i, usize>,
    open0: Seq<(u128, V2i)>,
    open1: Seq<(u128, V2i)>,
    m: M,
    current: V2i,
    q: V2i,
    est: usize,
) where V2i: Neighbors<N>
    requires
        costm1 == costm0.insert(q, est),
        costm0.contains_key(q) ==> est < costm0[q],
        open1.len() == open0.len() + 1,
        forall|i: int| 0 <= i < open0.len() ==> open1[i] == open0[i],
        open1[open1.len() - 1].1 == q,
        forall|k: V2i| #[trigger]
            costm0.contains_key(k) && k != current ==> ((exists|j: int|
                0 <= j < open0.len() && (#[trigger] open0[j]).1 == k) || settled_node::<N, M>(
                costm0,
                m,
                k,
            )),
    ensures
        forall|k: V2i| #[trigger]
            costm1.contains_key(k) && k != current ==> ((exists|j: int|
                0 <= j < open1.len() && (#[trigger] open1[j]).1 == k) || settled_node::<N, M>(
                costm1,
                m,
                k,
            )),
{
    assert forall|k: V2i| #[trigger]
        costm1.contains_key(k) && k != current implies ((exists|j: int|
        0 <= j < open1.len() && (#[trigger] open1[j]).1 == k) || settled_node::<N, M>(
        costm1,
        m,
        k,
    )) by {
        if k == q {
            assert(open1[open1.len() - 1].1 == k);
        } else {
            assert(costm0.contains_key(k));
            assert(costm1[k] == costm0[k]);
            if exists|j: int| 0 <= j < open0.len() && (#[trigger] open0[j]).1 == k {
                let j0 = choose|j: int| 0 <= j < open0.len() && (#[trigger] open0[j]).1 == k;
                assert(open1[j0].1 == k);
            } else {
                assert(settled_node::<N, M>(costm0, m, k));
                assert forall|q2: V2i| #[trigger] <V2i as Neighbors<N>>::is_step(
                    k,
                    q2,
                ) implies m.decided(q2) && (m.passable(q2) ==> costm1.contains_key(q2)
                    && costm1[q2] <= costm1[k] + 1) by {
                    if m.passable(q2) {
                        assert(costm0.contains_key(q2));
                        assert(costm0[q2] <= costm0[k] + 1);
                        if q2 == q {
                            assert(est < costm0[q]);
                        }
                    }
                }
            }
        }
    }
}

/// The same search over an allocating probe: the walk it returns runs
/// through points the probes accepted, which stay accepted in the carrier's
/// final state; on failure no path exists through that final state. The
/// search always terminates: its records can hold at most as many nodes as
/// a vector addresses, and a measure over the recorded costs shrinks with
/// every expansion.
#[verifier::loop_isolation(false)]
#[verifier::rlimit(100)]
fn probe_path<N, M: ProbePass>(start: V2i, goal: V2i, m: &mut M) -> (r: Result<
    Vec<V2i>,
    Error,
>) where V2i: Neighbors<N>
    requires
        old(m).inv(),
        in_safe_range(start),
        forall|p: V2i| in_safe_range(p) ==> #[trigger] <V2i as Neighbors<N>>::step_ok(p),
    ensures
        final(m).inv(),
        M::evolves(*old(m), *final(m)),
        match r {
            Ok(p) => valid_path::<N>(p@, start, goal, probe_pass_of(*final(m))) && forall|
                i: int,
                j: int,
            | 0 <= i < j < p@.len() ==> p@[i] != p@[j],
            Err(e) => {
                &&& e == Error::Disconnected
                &&& !(exists|s: Seq<V2i>|
                    valid_path::<N>(s, start, goal, probe_pass_of(*final(m))))
            },
        },
        start == goal ==> (r matches Ok(p) && p@ == seq![start]),
{
    proof {
        M::evolves_refl(*old(m));
    }
    if start == goal {
        let mut p: Vec<V2i> = Vec::new();
        p.push(start);
        proof {
            assert(p@ =~= seq![start]);
        }
        return Ok(p);
    }
    let ghost bigu: int = usize::MAX as int + 2;

    let mut cost: PointMap<usize> = PointMap::new();
    let mut back: PointMap<V2i> = PointMap::new();
    let mut open: Vec<(u128, V2i)> = Vec::new();
    let mut nb: Vec<V2i> = Vec::new();

    cost.insert(start, 0);
    open.push((0, start));
    proof {
        assert(open@[0].1 == start);
    }
    while open.len() != 0
        invariant
            m.inv(),
            M::evolves(*old(m), *m),
            cost.wf(),
            back.wf(),
            cost@.contains_key(start),
            cost@[start] == 0,
            cost.kvs().len() <= usize::MAX,
            forall|k: V2i| #[trigger] cost@.contains_key(k) ==> in_safe_range(k),
            forall|k: V2i| #[trigger] cost@.contains_key(k) ==> cost@[k] + 1 <= cost.kvs().len(),
            forall|k: V2i| #[trigger]
                back@.contains_key(k) <==> (cost@.contains_key(k) && k != start),
            forall|k: V2i| #[trigger]
                back@.contains_key(k) ==> {
                    &&& cost@.contains_key(back@[k])
                    &&& cost@[back@[k]] < cost@[k]
                    &&& <V2i as Neighbors<N>>::is_step(back@[k], k)
                    &&& m.decided(k)
                    &&& m.passable(k)
                },
            forall|j: int| 0 <= j < open@.len() ==> cost@.contains_key((#[trigger] open@[j]).1),
            forall|k: V2i| #[trigger]
                cost@.contains_key(k) ==> ((exists|j: int|
                    0 <= j < open@.len() && (#[trigger] open@[j]).1 == k) || settled_node::<N, M>(
                    cost@,
                    *m,
                    k,
                )),
            cost@.contains_key(goal) ==> exists|j: int|
                0 <= j < open@.len() && (#[trigger] open@[j]).1 == goal,
        decreases bigu * (bigu - cost.kvs().len()) + sum_costs(cost.kvs()) + open@.len(),
    {
        proof {
            lemma_sum_nonneg(cost.kvs());
        }
        let mut best: usize = 0;
        let mut i: usize = 1;
        while i < open.len()
            invariant
                open@.len() > 0,
                best < i,
                i <= open@.len(),
            decreases open@.len() - i,
        {
            if open[i].0 < open[best].0 {
                best = i;
            }
            i = i + 1;
        }
        let ghost open_pre = open@;
        let visit: (u128, V2i) = open.remove(best);
        let current: V2i = visit.1;

        if current == goal {
            return Ok(reconstruct::<N>(&back, &cost, start, goal, Ghost(probe_pass_of(*m))));
        }

        proof {
            if cost@.contains_key(goal) {
                let j0 = choose|j: int| 0 <= j < open_pre.len() && (#[trigger] open_pre[j]).1
                    == goal;
                if j0 < best {
                    assert(open@[j0].1 == goal);
                } else {
                    assert(open@[j0 - 1].1 == goal);
                }
            }
            assert(open_pre[best as int].1 == current);
            assert forall|k: V2i| #[trigger]
                cost@.contains_key(k) && k != current implies ((exists|j2: int|
                0 <= j2 < open@.len() && (#[trigger] open@[j2]).1 == k) || settled_node::<N, M>(
                cost@,
                *m,
                k,
            )) by {
                if !settled_node::<N, M>(cost@, *m, k) {
                    let j0 = choose|j2: int|
                        0 <= j2 < open_pre.len() && (#[trigger] open_pre[j2]).1 == k;
                    assert(j0 != best);
                    if j0 < best {
                        assert(open@[j0].1 == k);
                    } else {
                        assert(open@[j0 - 1].1 == k);
                    }
                }
            }
        }

        let cl: usize = cost.len();
        let cbase: usize = *cost.get(current).unwrap();
        let ghost phi_mid = bigu * (bigu - cost.kvs().len()) + sum_costs(cost.kvs())
            + open@.len();

        nb.clear();
        Neighbors::<N>::neighbors(&current, &mut nb);
        let ncount: usize = nb.len();
        let mut j: usize = 0;
        while j < ncount
            invariant
                ncount == nb@.len(),
                j <= ncount,
                forall|i2: int|
                    0 <= i2 < nb@.len() ==> <V2i as Neighbors<N>>::is_step(
                        current,
                        #[trigger] nb@[i2],
                    ),
                m.inv(),
                M::evolves(*old(m), *m),
                cost.wf(),
                back.wf(),
                cost@.contains_key(start),
                cost@[start] == 0,
                cost@.contains_key(current),
                cost@[current] == cbase,
                cost.kvs().len() <= usize::MAX,
                forall|k: V2i| #[trigger] cost@.contains_key(k) ==> in_safe_range(k),
                forall|k: V2i| #[trigger]
                    cost@.contains_key(k) ==> cost@[k] + 1 <= cost.kvs().len(),
                forall|k: V2i| #[trigger]
                    back@.contains_key(k) <==> (cost@.contains_key(k) && k != start),
                forall|k: V2i| #[trigger]
                    back@.contains_key(k) ==> {
                        &&& cost@.contains_key(back@[k])
                        &&& cost@[back@[k]] < cost@[k]
                        &&& <V2i as Neighbors<N>>::is_step(back@[k], k)
                        &&& m.decided(k)
                        &&& m.passable(k)
                    },
                forall|j2: int|
                    0 <= j2 < open@.len() ==> cost@.contains_key((#[trigger] open@[j2]).1),
                forall|k: V2i| #[trigger]
                    cost@.contains_key(k) && k != current ==> ((exists|j2: int|
                        0 <= j2 < open@.len() && (#[trigger] open@[j2]).1 == k)
                        || settled_node::<N, M>(cost@, *m, k)),
                forall|i2: int|
                    0 <= i2 < j ==> m.decided(#[trigger] nb@[i2]) && (m.passable(nb@[i2])
                        ==> cost@.contains_key(nb@[i2]) && cost@[nb@[i2]] <= cbase + 1),
                cost@.contains_key(goal) ==> exists|j2: int|
                    0 <= j2 < open@.len() && (#[trigger] open@[j2]).1 == goal,
                bigu * (bigu - cost.kvs().len()) + sum_costs(cost.kvs()) + open@.len()
                    <= phi_mid,
            decreases ncount - j,
        {
            let q: V2i = nb[j];
            let safe: bool = q.0 > isize::MIN && q.0 < isize::MAX && q.1 > isize::MIN && q.1
                < isize::MAX;
            if safe {
                let ghost m_pre = *m;
                let hit: bool = m.probe(q);
                proof {
                    M::evolves_trans(*old(m), m_pre, *m);
                    assert forall|k: V2i| #[trigger] back@.contains_key(k) implies m.decided(k)
                        && m.passable(k) by {
                        M::evolves_sticky(m_pre, *m, k);
                    }
                    assert forall|i2: int| 0 <= i2 < j implies m.decided(#[trigger] nb@[i2]) && (
                    m.passable(nb@[i2]) ==> cost@.contains_key(nb@[i2]) && cost@[nb@[i2]] <= cbase
                        + 1) by {
                        M::evolves_sticky(m_pre, *m, nb@[i2]);
                    }
                    assert forall|k: V2i| #[trigger]
                        cost@.contains_key(k) && k != current implies ((exists|j2: int|
                        0 <= j2 < open@.len() && (#[trigger] open@[j2]).1 == k)
                        || settled_node::<N, M>(cost@, *m, k)) by {
                        if !(exists|j2: int|
                            0 <= j2 < open@.len() && (#[trigger] open@[j2]).1 == k) {
                            assert(settled_node::<N, M>(cost@, m_pre, k));
                            assert forall|q2: V2i| #[trigger] <V2i as Neighbors<N>>::is_step(
                                k,
                                q2,
                            ) implies m.decided(q2) && (m.passable(q2) ==> cost@.contains_key(q2)
                                && cost@[q2] <= cost@[k] + 1) by {
                                M::evolves_sticky(m_pre, *m, q2);
                            }
                        }
                    }
                }
                if hit {
                    let est: usize = cbase + 1;
                    let improve: bool = match cost.get(q) {
                        Some(c) => est < *c,
                        None => true,
                    };
                    if improve {
                        let ghost kvs0 = cost.kvs();
                        let ghost costm0 = cost@;
                        let ghost open0 = open@;
                        let ghost sum0 = sum_costs(kvs0);
                        proof {
                            if cost@.contains_key(q) {
                                crate::pmap::lemma_key_index(kvs0, q);
                                lemma_sum_update(kvs0, crate::pmap::key_index(kvs0, q));
                            } else {
                                lemma_sum_push(kvs0, q, est);
                            }
                        }
                        cost.insert(q, est);
                        back.insert(q, current);
                        // reading the length pins it under the machine
                        // word's bound, which the termination measure needs
                        let _grown: usize = cost.len();
                        let dx: i128 = (q.0 as i128) - (goal.0 as i128);
                        let dy: i128 = (q.1 as i128) - (goal.1 as i128);
                        let ax: i128 = if dx < 0 { -dx } else { dx };
                        let ay: i128 = if dy < 0 { -dy } else { dy };
                        let h: u128 = (ax + ay) as u128;
                        let pri: u128 = (est as u128) + h;
                        open.push((pri, q));
                        proof {
                            let ki = crate::pmap::key_index(kvs0, q);
                            let len0 = kvs0.len() as int;
                            if costm0.contains_key(q) {
                                assert(kvs0[ki].0 == q);
                                assert(cost.kvs() == kvs0.update(ki, (q, est)));
                                assert(sum_costs(kvs0.update(ki, (kvs0[ki].0, est))) == sum0
                                    - kvs0[ki].1 + est);
                                assert(kvs0[ki].1 == costm0[q]);
                                assert(sum_costs(cost.kvs()) == sum0 - costm0[q] + est);
                            } else {
                                assert(cost.kvs() == kvs0.push((q, est)));
                                assert(sum_costs(cost.kvs()) == sum0 + est);
                                assert(bigu * (bigu - (len0 + 1)) == bigu * (bigu - len0)
                                    - bigu) by (nonlinear_arith);
                            }
                            assert(open@[open@.len() - 1].1 == q);
                            lemma_settled_after_improve::<N, M>(
                                costm0,
                                cost@,
                                open0,
                                open@,
                                *m,
                                current,
                                q,
                                est,
                            );
                            if cost@.contains_key(goal) {
                                if costm0.contains_key(goal) {
                                    let j0 = choose|j2: int|
                                        0 <= j2 < open0.len() && (#[trigger] open0[j2]).1
                                            == goal;
                                    assert(open@[j0].1 == goal);
                                } else {
                                    assert(q == goal);
                                    assert(open@[open@.len() - 1].1 == goal);
                                }
                            }
                        }
                    }
                }
            } else {
                proof {
                    m.range_props();
                }
            }
            j = j + 1;
        }
        proof {
            assert(settled_node::<N, M>(cost@, *m, current)) by {
                assert forall|q2: V2i| #[trigger] <V2i as Neighbors<N>>::is_step(
                    current,
                    q2,
                ) implies m.decided(q2) && (m.passable(q2) ==> cost@.contains_key(q2) && cost@[q2]
                    <= cost@[current] + 1) by {
                    let i2 = choose|i2: int| 0 <= i2 < nb@.len() && nb@[i2] == q2;
                    assert(m.decided(nb@[i2]));
                }
            }
            lemma_sum_nonneg(cost.kvs());
        }
    }
    proof {
        assert forall|k: V2i| #[trigger] cost@.contains_key(k) implies closed_node::<N>(
            cost@,
            probe_pass_of(*m),
            k,
        ) by {
            assert(open@.len() == 0);
            assert(settled_node::<N, M>(cost@, *m, k));
        }
        assert(!cost@.contains_key(goal));
        if exists|s: Seq<V2i>| valid_path::<N>(s, start, goal, probe_pass_of(*m)) {
            let s = choose|s: Seq<V2i>| valid_path::<N>(s, start, goal, probe_pass_of(*m));
            lemma_no_escape::<N>(cost@, probe_pass_of(*m), s, start, goal);
        }
    }
    Err(Error::Disconnected)
}

/// The lattice points of one row of a bounded box form a finite set.
proof fn lemma_row_finite(ox: int, y: int, w: int)
    requires
        0 <= w,
        isize::MIN <= ox,
        ox + w <= isize::MAX + 1,
        isize::MIN <= y <= isize::MAX,
    ensures
        Set::new(|p: V2i| ox <= p.0 < ox + w && p.1 == y).finite(),
    decreases w,
{
    let s = Set::new(|p: V2i| ox <= p.0 < ox + w && p.1 == y);
    if w == 0 {
        assert(s =~= Set::<V2i>::empty());
    } else {
        lemma_row_finite(ox, y, w - 1);
        let t = Set::new(|p: V2i| ox <= p.0 < ox + w - 1 && p.1 == y);
        let e = V2i((ox + w - 1) as isize, y as isize);
        assert(s =~= t.insert(e));
    }
}

/// The lattice points of a bounded axis-aligned box form a finite set.
proof fn lemma_box_finite(ox: int, oy: int, w: int, h: int)
    requires
        0 <= w,
        0 <= h,
        isize::MIN <= ox,
        ox + w <= isize::MAX + 1,
        isize::MIN <= oy,
        oy + h <= isize::MAX + 1,
    ensures
        Set::new(|p: V2i| ox <= p.0 < ox + w && oy <= p.1 < oy + h).finite(),
    decreases h,
{
    let s = Set::new(|p: V2i| ox <= p.0 < ox + w && oy <= p.1 < oy + h);
    if h == 0 {
        assert(s =~= Set::<V2i>::empty());
    } else {
        lemma_box_finite(ox, oy, w, h - 1);
        lemma_row_finite(ox, oy + h - 1, w);
        let t = Set::new(|p: V2i| ox <= p.0 < ox + w && oy <= p.1 < oy + h - 1);
        let row = Set::new(|p: V2i| ox <= p.0 < ox + w && p.1 == oy + h - 1);
        assert(s =~= t.union(row));
    }
}

/// The grid-backed passability predicate: a point passes when the grid holds
/// it and its tile permits passage; out-of-grid points are impassable.
pub open spec fn grid_pass<T: Traversable>(g: Grid<T>) -> spec_fn(V2i) -> bool {
    |q: V2i| g.contains_spec(q) && g.tile_at(q).passable()
}

/// The passability oracle a grid presents to the search.
struct GridPass<'a, T> {
    grid: &'a Grid<T>,
}

impl<'a, T: Traversable> Passability for GridPass<'a, T> {
    closed spec fn inv(&self) -> bool {
        &&& self.grid.wf()
        &&& self.grid.spec_origin().0 > isize::MIN
        &&& self.grid.spec_origin().1 > isize::MIN
    }

    closed spec fn domain(&self) -> Set<V2i> {
        Set::new(|p: V2i| self.grid.contains_spec(p))
    }

    closed spec fn passable(&self, p: V2i) -> bool {
        self.grid.contains_spec(p) && self.grid.tile_at(p).passable()
    }

    proof fn domain_props(&self) {
        let g = *self.grid;
        lemma_box_finite(
            g.spec_origin().0 as int,
            g.spec_origin().1 as int,
            g.spec_dim().0 as int,
            g.spec_dim().1 as int,
        );
        assert(self.domain() =~= Set::new(
            |p: V2i|
                g.spec_origin().0 <= p.0 < g.spec_origin().0 + g.spec_dim().0
                    && g.spec_origin().1 <= p.1 < g.spec_origin().1 + g.spec_dim().1,
        ));
    }

    fn check(&self, p: V2i) -> (b: bool) {
        match self.grid.get(p) {
            Ok(t) => t.can_pass(),
            Err(_) => false,
        }
    }
}

impl<T: Traversable> Grid<T> {
    /// Searches for a path over this grid: a tile passes when it lies in the
    /// grid and its `Traversable` capability allows it; out-of-grid points
    /// are impassable. Returns a path exactly when one exists.
    pub fn path<N>(&self, start: V2i, goal: V2i) -> (r: Result<Vec<V2i>, Error>) where
        V2i: Neighbors<N>,

        requires
            self.wf(),
            self.spec_origin().0 > isize::MIN,
            self.spec_origin().1 > isize::MIN,
            in_safe_range(start),
            forall|p: V2i| in_safe_range(p) ==> #[trigger] <V2i as Neighbors<N>>::step_ok(p),
        ensures
            match r {
                Ok(p) => valid_path::<N>(p@, start, goal, grid_pass(*self)) && forall|
                    i: int,
                    j: int,
                | 0 <= i < j < p@.len() ==> p@[i] != p@[j],
                Err(e) => {
                    &&& e == Error::Disconnected
                    &&& !(exists|s: Seq<V2i>| valid_path::<N>(s, start, goal, grid_pass(*self)))
                },
            },
            start == goal ==> (r matches Ok(p) && p@ == seq![start]),
            steps_bound_manhattan::<N>(goal) ==> (r matches Ok(p) ==> (forall|s: Seq<V2i>|
                valid_path::<N>(s, start, goal, grid_pass(*self)) ==> s.len() >= p@.len())),
    {
        let allow = GridPass { grid: self };
        proof {
            assert(pass_of(allow) =~= grid_pass(*self));
        }
        path::<N, GridPass<T>>(start, goal, &allow)
    }
}

/// The region-backed passability predicate: a point passes when its chunk is
/// allocated and its tile permits passage; an unallocated chunk is
/// impassable.
/// The passability the allocating search explores: the tile passes and the
/// point keeps a whole chunk of room inside the machine range; points
/// closer to the range's edge are never allocated and never entered.
pub open spec fn region_probe_pass<T: Traversable, G>(reg: Region<T, G>) -> spec_fn(
    V2i,
) -> bool {
    |q: V2i|
        crate::grid::region::chunk_fits(reg.spec_grid_size(), q) && match reg.spec_get(q) {
            Some(t) => t.passable(),
            None => false,
        }
}

pub open spec fn region_pass<T: Traversable, G>(reg: Region<T, G>) -> spec_fn(V2i) -> bool {
    |q: V2i|
        match reg.spec_get(q) {
            Some(t) => t.passable(),
            None => false,
        }
}

/// The read-only passability oracle a region presents to the search.
struct RegionPass<'a, T, G> {
    region: &'a Region<T, G>,
}

/// The points of allocated chunks form a finite set.
proof fn lemma_region_domain_finite<T>(kvs: Seq<(V2i, Grid<T>)>, gs: V2i)
    requires
        gs.is_strict_q1_spec(),
        forall|i: int| 0 <= i < kvs.len() ==> chunk_wf(gs, (#[trigger] kvs[i]).0, kvs[i].1),
    ensures
        Set::new(|p: V2i| map_of(kvs).contains_key(chunk_index_spec(gs, p))).finite(),
    decreases kvs.len(),
{
    let s = Set::new(|p: V2i| map_of(kvs).contains_key(chunk_index_spec(gs, p)));
    if kvs.len() == 0 {
        assert(s =~= Set::<V2i>::empty());
    } else {
        let k = kvs.last().0;
        assert(chunk_wf(gs, k, kvs.last().1));
        lemma_region_domain_finite(kvs.drop_last(), gs);
        let ox = k.0 * gs.0;
        let oy = k.1 * gs.1;
        lemma_box_finite(ox, oy, gs.0 as int, gs.1 as int);
        let t = Set::new(
            |p: V2i| map_of(kvs.drop_last()).contains_key(chunk_index_spec(gs, p)),
        );
        let own = Set::new(|p: V2i| ox <= p.0 < ox + gs.0 && oy <= p.1 < oy + gs.1);
        assert forall|p: V2i| #[trigger] s.contains(p) implies t.contains(p) || own.contains(
            p,
        ) by {
            if chunk_index_spec(gs, p) == k {
                lemma_chunk_decomposition(gs, p);
                assert(k.0 * gs.0 == gs.0 * ((p.0 as int) / (gs.0 as int))
                    && k.1 * gs.1 == gs.1 * ((p.1 as int) / (gs.1 as int)))
                    by (nonlinear_arith)
                    requires
                        k.0 as int == (p.0 as int) / (gs.0 as int),
                        k.1 as int == (p.1 as int) / (gs.1 as int);
                assert(own.contains(p));
            }
        }
        assert forall|p: V2i| t.contains(p) || own.contains(p) implies #[trigger] s.contains(
            p,
        ) by {
            if own.contains(p) {
                vstd::arithmetic::div_mod::lemma_fundamental_div_mod_converse(
                    p.0 as int,
                    gs.0 as int,
                    k.0 as int,
                    p.0 - ox,
                );
                vstd::arithmetic::div_mod::lemma_fundamental_div_mod_converse(
                    p.1 as int,
                    gs.1 as int,
                    k.1 as int,
                    p.1 - oy,
                );
                assert(chunk_index_spec(gs, p) == k);
            }
        }
        assert(s =~= t.union(own));
    }
}

impl<'a, T: Traversable + Default, G: GridGen<T>> Passability for RegionPass<'a, T, G> {
    closed spec fn inv(&self) -> bool {
        self.region.wf()
    }

    closed spec fn domain(&self) -> Set<V2i> {
        Set::new(|p: V2i| self.region.has_chunk(p))
    }

    closed spec fn passable(&self, p: V2i) -> bool {
        match self.region.spec_get(p) {
            Some(t) => t.passable(),
            None => false,
        }
    }

    proof fn domain_props(&self) {
        let reg = *self.region;
        let gs = reg.spec_grid_size();
        crate::pmap::lemma_map_len(reg.chunks().kvs());
        assert forall|i: int| 0 <= i < reg.chunks().kvs().len() implies chunk_wf(
            gs,
            (#[trigger] reg.chunks().kvs()[i]).0,
            reg.chunks().kvs()[i].1,
        ) by {
            crate::pmap::lemma_entry_in_map(reg.chunks().kvs(), i);
            let k = reg.chunks().kvs()[i].0;
            assert(crate::pmap::unique_keys(reg.chunks().kvs()));
            assert(reg.chunk_map().contains_key(k));
            assert(reg.chunk_map()[k] == reg.chunks().kvs()[i].1);
            assert(chunk_wf(gs, k, reg.chunk_map()[k]));
        }
        lemma_region_domain_finite(reg.chunks().kvs(), gs);
        assert(self.domain() =~= Set::new(
            |p: V2i| map_of(reg.chunks().kvs()).contains_key(chunk_index_spec(gs, p)),
        ));
        assert forall|p: V2i| #[trigger] self.domain().contains(p) implies in_safe_range(p) by {
            let ci = chunk_index_spec(gs, p);
            assert(chunk_wf(gs, ci, reg.chunk_map()[ci]));
            lemma_chunk_decomposition(gs, p);
            assert(ci.0 * gs.0 == gs.0 * ((p.0 as int) / (gs.0 as int))
                && ci.1 * gs.1 == gs.1 * ((p.1 as int) / (gs.1 as int))) by (nonlinear_arith)
                requires
                    ci.0 as int == (p.0 as int) / (gs.0 as int),
                    ci.1 as int == (p.1 as int) / (gs.1 as int);
        }
    }

    fn check(&self, p: V2i) -> (b: bool) {
        match self.region.get(p) {
            Some(t) => t.can_pass(),
            None => false,
        }
    }
}

/// Over a region, the probe's passability and `region_probe_pass` accept
/// the same paths.
pub broadcast proof fn lemma_region_probe_valid<N, T: Traversable + Default, G: GridGen<T>>(
    reg: Region<T, G>,
    s: Seq<V2i>,
    start: V2i,
    goal: V2i,
) where V2i: Neighbors<N>
    ensures
        #[trigger] valid_path::<N>(s, start, goal, region_probe_pass(reg)) == valid_path::<N>(
            s,
            start,
            goal,
            probe_pass_of(reg),
        ),
{
    if valid_path::<N>(s, start, goal, region_probe_pass(reg)) {
        assert forall|i: int| 1 <= i < s.len() implies (probe_pass_of(reg))(#[trigger] s[i]) by {
            assert((region_probe_pass(reg))(s[i]));
        }
        assert(valid_path::<N>(s, start, goal, probe_pass_of(reg)));
    }
    if valid_path::<N>(s, start, goal, probe_pass_of(reg)) {
        assert forall|i: int| 1 <= i < s.len() implies (region_probe_pass(reg))(
            #[trigger] s[i],
        ) by {
            assert((probe_pass_of(reg))(s[i]));
        }
        assert(valid_path::<N>(s, start, goal, region_probe_pass(reg)));
    }
}

/// A path through the passability the allocating search explores is in
/// particular a path through the region's plain passability.
pub broadcast proof fn lemma_region_pass_of_probe<N, T: Traversable + Default, G: GridGen<T>>(
    reg: Region<T, G>,
    s: Seq<V2i>,
    start: V2i,
    goal: V2i,
) where V2i: Neighbors<N>
    ensures
        valid_path::<N>(s, start, goal, region_probe_pass(reg)) ==> #[trigger] valid_path::<N>(
            s,
            start,
            goal,
            region_pass(reg),
        ),
{
    if valid_path::<N>(s, start, goal, region_probe_pass(reg)) {
        assert forall|i: int| 1 <= i < s.len() implies (region_pass(reg))(#[trigger] s[i]) by {
            assert((region_probe_pass(reg))(s[i]));
        }
        assert(valid_path::<N>(s, start, goal, region_pass(reg)));
    }
}

impl<T: Traversable + Default, G: GridGen<T>> ProbePass for Region<T, G> {
    open spec fn inv(&self) -> bool {
        self.wf()
    }

    open spec fn passable(&self, p: V2i) -> bool {
        crate::grid::region::chunk_fits(self.spec_grid_size(), p) && match self.spec_get(p) {
            Some(t) => t.passable(),
            None => false,
        }
    }

    open spec fn decided(&self, p: V2i) -> bool {
        !crate::grid::region::chunk_fits(self.spec_grid_size(), p) || self.has_chunk(p)
    }

    open spec fn evolves(pre: Self, post: Self) -> bool {
        &&& post.spec_grid_size() == pre.spec_grid_size()
        &&& (post.spec_gen() is Some) == (pre.spec_gen() is Some)
        &&& forall|k: V2i| #[trigger]
            pre.chunk_map().contains_key(k) ==> post.chunk_map().contains_key(k)
        &&& forall|p: V2i| #[trigger]
            pre.has_chunk(p) ==> post.has_chunk(p) && post.spec_get(p) == pre.spec_get(p)
    }

    proof fn evolves_refl(a: Self) {
    }

    proof fn evolves_trans(a: Self, b: Self, c: Self) {
        assert forall|k: V2i| #[trigger] a.chunk_map().contains_key(k) implies c.chunk_map()
            .contains_key(k) by {
            assert(b.chunk_map().contains_key(k));
        }
        assert forall|p: V2i| #[trigger] a.has_chunk(p) implies c.has_chunk(p) && c.spec_get(p)
            == a.spec_get(p) by {
            assert(b.has_chunk(p));
        }
    }

    proof fn evolves_sticky(a: Self, b: Self, p: V2i) {
        if a.has_chunk(p) {
            assert(b.has_chunk(p) && b.spec_get(p) == a.spec_get(p));
        }
    }

    proof fn range_props(&self) {
    }

    fn probe(&mut self, p: V2i) -> (b: bool) {
        let ghost pre = *self;
        let gs = self.grid_size();
        if p.0 <= isize::MAX - gs.0 && p.0 >= isize::MIN + gs.0 && p.1 <= isize::MAX - gs.1 && p.1
            >= isize::MIN + gs.1 {
            let t = self.get_or_create(p);
            let b: bool = t.can_pass();
            let ghost x = *t;
            proof {
                crate::grid::region::lemma_write_round_trip(pre, *self, p, x);
                assert forall|q: V2i| #[trigger] pre.has_chunk(q) implies self.has_chunk(q)
                    && self.spec_get(q) == pre.spec_get(q) by {
                    if q != p {
                        assert(self.spec_get(q) == pre.spec_get(q));
                    } else {
                        assert(Some(x) == pre.spec_get(p));
                        assert(self.spec_get(p) == Some(x));
                    }
                }
            }
            b
        } else {
            proof {
                Self::evolves_refl(*self);
            }
            false
        }
    }
}

impl<T: Traversable + Default, G: GridGen<T>> Region<T, G> {
    /// Searches for a path over this region without allocating: a point in
    /// an unallocated chunk is impassable. Returns a path exactly when one
    /// exists through the chunks materialised so far.
    pub fn path<N>(&self, start: V2i, goal: V2i) -> (r: Result<Vec<V2i>, Error>) where
        V2i: Neighbors<N>,

        requires
            self.wf(),
            in_safe_range(start),
            forall|p: V2i| in_safe_range(p) ==> #[trigger] <V2i as Neighbors<N>>::step_ok(p),
        ensures
            match r {
                Ok(p) => valid_path::<N>(p@, start, goal, region_pass(*self)) && forall|
                    i: int,
                    j: int,
                | 0 <= i < j < p@.len() ==> p@[i] != p@[j],
                Err(e) => {
                    &&& e == Error::Disconnected
                    &&& !(exists|s: Seq<V2i>|
                        valid_path::<N>(s, start, goal, region_pass(*self)))
                },
            },
            start == goal ==> (r matches Ok(p) && p@ == seq![start]),
            steps_bound_manhattan::<N>(goal) ==> (r matches Ok(p) ==> (forall|s: Seq<V2i>|
                valid_path::<N>(s, start, goal, region_pass(*self)) ==> s.len() >= p@.len())),
    {
        let allow = RegionPass { region: self };
        proof {
            assert(pass_of(allow) =~= region_pass(*self));
        }
        path::<N, RegionPass<T, G>>(start, goal, &allow)
    }

    /// Searches for a path over this region through the allocating accessor,
    /// so traversal can trigger world generation of the chunks it touches:
    /// an observable mutation during what is conceptually a read-only query.
    /// Chunks only ever appear, never vanish, and existing tiles never
    /// change. A returned path runs over tiles that pass in the region as
    /// the search leaves it; on failure no such path exists — against the
    /// passability the search explores, which keeps a one-chunk margin
    /// inside the machine range.
    pub fn path_mut<N>(&mut self, start: V2i, goal: V2i) -> (r: Result<Vec<V2i>, Error>) where
        V2i: Neighbors<N>,

        requires
            old(self).wf(),
            in_safe_range(start),
            forall|p: V2i| in_safe_range(p) ==> #[trigger] <V2i as Neighbors<N>>::step_ok(p),
        ensures
            final(self).wf(),
            final(self).spec_grid_size() == old(self).spec_grid_size(),
            (final(self).spec_gen() is Some) == (old(self).spec_gen() is Some),
            forall|k: V2i| #[trigger]
                old(self).chunk_map().contains_key(k) ==> final(self).chunk_map().contains_key(k),
            forall|p: V2i| #[trigger]
                old(self).has_chunk(p) ==> final(self).has_chunk(p) && final(self).spec_get(p)
                    == old(self).spec_get(p),
            match r {
                Ok(p) => {
                    &&& valid_path::<N>(p@, start, goal, region_probe_pass(*final(self)))
                    &&& valid_path::<N>(p@, start, goal, region_pass(*final(self)))
                    &&& forall|i: int, j: int| 0 <= i < j < p@.len() ==> p@[i] != p@[j]
                },
                Err(e) => {
                    &&& e == Error::Disconnected
                    &&& !(exists|s: Seq<V2i>|
                        valid_path::<N>(s, start, goal, region_probe_pass(*final(self))))
                },
            },
            start == goal ==> (r matches Ok(p) && p@ == seq![start]),
    {
        broadcast use lemma_region_probe_valid;
        broadcast use lemma_region_pass_of_probe;

        probe_path::<N, Region<T, G>>(start, goal, self)
    }
}

} // verus!
