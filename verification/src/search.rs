//! Breadth-first search over states with 0/1 costs ("0-1 BFS"): taking an
//! edge of the current name costs nothing and goes to the front of the
//! queue, changing names costs one turn and goes to the back.
use vstd::prelude::*;
use vstd::set_lib::*;
use std::collections::VecDeque;

use crate::graph::Edge;
use crate::index::Index;
use crate::steps::{init_run, lemma_distinct_bound, lemma_outcome, outcome, relax_upto, run_for, trace, Run};

verus! {

/// Every edge that leaves state `s` leads to a state whose distance is known
/// and no larger than the distance of `s` plus the cost of the edge.
pub open spec fn relaxed(ix: &Index, dist: Seq<Option<usize>>, s: usize) -> bool {
    forall|j: int|
        0 <= j < ix.around(ix.snode@[s as int]).len() ==> {
            let e = #[trigger] ix.around(ix.snode@[s as int])[j];
            let t = ix.target(s, e);
            &&& dist[t as int] is Some
            &&& dist[t as int].unwrap() <= dist[s as int].unwrap() + ix.weight(s, e)
        }
}

/// The queue holds known states; next to each stands the distance it was
/// queued with (`keys`), which never falls below its current distance; the
/// keys rise from front to back and lie within `level` and `level + 1`.
pub open spec fn queue_ok(
    ix: &Index,
    dist: Seq<Option<usize>>,
    q: Seq<usize>,
    keys: Seq<int>,
    level: int,
) -> bool {
    &&& keys.len() == q.len()
    &&& forall|i: int|
        0 <= i < q.len() ==> {
            &&& #[trigger] q[i] < ix.ns()
            &&& dist[q[i] as int] is Some
            &&& dist[q[i] as int].unwrap() <= keys[i]
            &&& level <= keys[i] <= level + 1
        }
    &&& forall|i: int, j: int| 0 <= i <= j < q.len() ==> keys[i] <= keys[j]
}

/// Settled states: known, at most `level` away, not at `to`, with every
/// edge out of them relaxed.
pub open spec fn settled_ok(
    ix: &Index,
    dist: Seq<Option<usize>>,
    settled: Set<int>,
    level: int,
    to: usize,
) -> bool {
    forall|s: int|
        #[trigger] settled.contains(s) ==> {
            &&& 0 <= s < ix.ns()
            &&& dist[s] is Some
            &&& dist[s].unwrap() <= level
            &&& dist[s].unwrap() < ix.ns()
            &&& ix.snode@[s] != to
            &&& relaxed(ix, dist, s as usize)
        }
}

/// States closer than `level` are settled.
pub open spec fn below_settled(
    ix: &Index,
    dist: Seq<Option<usize>>,
    settled: Set<int>,
    level: int,
) -> bool {
    forall|s: int|
        0 <= s < ix.ns() && #[trigger] dist[s] is Some && dist[s].unwrap() < level
            ==> settled.contains(s)
}

/// Each known state that is not settled, other than `skip`, waits in the
/// queue with its current distance.
pub open spec fn waiting_ok(
    ix: &Index,
    dist: Seq<Option<usize>>,
    settled: Set<int>,
    q: Seq<usize>,
    keys: Seq<int>,
    skip: int,
) -> bool {
    forall|s: int|
        0 <= s < ix.ns() && #[trigger] dist[s] is Some && !settled.contains(s) && s != skip
            ==> exists|i: int| 0 <= i < q.len() && q[i] == s && keys[i] == dist[s].unwrap()
}

/// Start states are at distance 0; a known state without a prior step is a
/// start state; each prior step is an edge into its state, and following
/// prior steps lowers the distance, or keeps it and lowers the stamp.
pub open spec fn prior_ok(
    ix: &Index,
    from: usize,
    dist: Seq<Option<usize>>,
    prior: Seq<Option<(usize, usize)>>,
    stamp: Seq<int>,
    clock: int,
) -> bool {
    &&& dist.len() == ix.ns()
    &&& prior.len() == ix.ns()
    &&& stamp.len() == ix.ns()
    &&& forall|s: usize| #[trigger] ix.is_start(from, s) ==> dist[s as int] == Some(0usize)
    &&& forall|t: int| 0 <= t < ix.ns() ==> 0 <= #[trigger] stamp[t] < clock
    &&& forall|t: int|
        0 <= t < ix.ns() && dist[t] is Some && #[trigger] prior[t] is None ==> ix.is_start(
            from,
            t as usize,
        )
    &&& forall|t: int|
        0 <= t < ix.ns() && #[trigger] prior[t] is Some ==> {
            let p = prior[t].unwrap().0;
            let e = prior[t].unwrap().1;
            &&& p < ix.ns()
            &&& e < ix.ne()
            &&& dist[p as int] is Some
            &&& dist[t] is Some
            &&& ix.can_take(p, e)
            &&& t == ix.target(p, e)
            &&& stamp[t] >= 1
            &&& (dist[t].unwrap() > dist[p as int].unwrap() + ix.weight(p, e) || (dist[t].unwrap()
                == dist[p as int].unwrap() + ix.weight(p, e) && stamp[p as int] < stamp[t]))
        }
}

/// The settled states are counted by `count`, which bounds `level`, and
/// also `level + 1` while some state waits at that distance.
pub open spec fn count_ok(
    ix: &Index,
    settled: Set<int>,
    keys: Seq<int>,
    level: int,
    count: int,
    extra: int,
) -> bool {
    &&& settled.subset_of(set_int_range(0, ix.ns()))
    &&& settled.finite()
    &&& settled.len() == count
    &&& 0 <= level <= count
    &&& (exists|i: int| 0 <= i < keys.len() && keys[i] == level + 1) ==> level + 1 <= count + extra
}

/// All that holds between two steps of the search.
pub open spec fn search_ok(
    ix: &Index,
    from: usize,
    to: usize,
    dist: Seq<Option<usize>>,
    prior: Seq<Option<(usize, usize)>>,
    q: Seq<usize>,
    keys: Seq<int>,
    settled: Set<int>,
    level: int,
    count: int,
    stamp: Seq<int>,
    clock: int,
) -> bool {
    &&& queue_ok(ix, dist, q, keys, level)
    &&& settled_ok(ix, dist, settled, level, to)
    &&& below_settled(ix, dist, settled, level)
    &&& waiting_ok(ix, dist, settled, q, keys, -1)
    &&& prior_ok(ix, from, dist, prior, stamp, clock)
    &&& count_ok(ix, settled, keys, level, count, 0)
}

/// The edges out of `s` at positions below `j` lead to known states no
/// farther than `d` plus the cost of the edge.
pub open spec fn relaxed_below(ix: &Index, dist: Seq<Option<usize>>, s: usize, d: int, j: int) -> bool {
    forall|jj: int|
        0 <= jj < j ==> {
            let e = #[trigger] ix.around(ix.snode@[s as int])[jj];
            let t = ix.target(s, e);
            &&& dist[t as int] is Some
            &&& dist[t as int].unwrap() <= d + ix.weight(s, e)
        }
}

/// All that holds while the edges out of the popped state `s`, at distance
/// `d`, are relaxed one by one; `j` edges are done.
pub open spec fn relax_ok(
    ix: &Index,
    from: usize,
    to: usize,
    dist: Seq<Option<usize>>,
    prior: Seq<Option<(usize, usize)>>,
    q: Seq<usize>,
    keys: Seq<int>,
    settled: Set<int>,
    level: int,
    count: int,
    stamp: Seq<int>,
    clock: int,
    s: usize,
    d: int,
    j: int,
) -> bool {
    let was_settled = settled.contains(s as int);
    &&& queue_ok(ix, dist, q, keys, level)
    &&& settled_ok(ix, dist, settled, level, to)
    &&& below_settled(ix, dist, settled, level)
    &&& waiting_ok(ix, dist, settled, q, keys, s as int)
    &&& prior_ok(ix, from, dist, prior, stamp, clock)
    &&& count_ok(ix, settled, keys, level, count, if was_settled { 0 } else { 1 })
    &&& s < ix.ns()
    &&& dist[s as int] == Some(d as usize)
    &&& 0 <= d < ix.ns()
    &&& (!was_settled ==> d == level)
    &&& ix.snode@[s as int] != to
    &&& 0 <= j <= ix.around(ix.snode@[s as int]).len()
    &&& relaxed_below(ix, dist, s, d, j)
}

/// Along a walk from a known state, as long as the states passed are
/// closer than `bound` and hence settled, each state is known and no farther
/// than the distance of the first plus the cost of the walk so far.
proof fn lemma_reach_bound(
    ix: &Index,
    dist: Seq<Option<usize>>,
    settled: Set<int>,
    level: int,
    to: usize,
    bound: int,
    ws: Seq<usize>,
    fs: Seq<usize>,
)
    requires
        settled_ok(ix, dist, settled, level, to),
        forall|s: int|
            0 <= s < ix.ns() && #[trigger] dist[s] is Some && dist[s].unwrap() < bound
                ==> settled.contains(s),
        ix.is_walk(ws, fs),
        dist[ws[0] as int] is Some,
        dist[ws[0] as int].unwrap() + ix.cost(ws, fs) < bound,
    ensures
        dist[ws.last() as int] is Some,
        dist[ws.last() as int].unwrap() <= dist[ws[0] as int].unwrap() + ix.cost(ws, fs),
        ix.cost(ws, fs) >= 0,
    decreases fs.len(),
{
    if fs.len() > 0 {
        let k = fs.len() - 1;
        let ws2 = ws.drop_last();
        let fs2 = fs.drop_last();
        assert(ix.is_walk(ws2, fs2)) by {
            assert forall|i: int| 0 <= i < fs2.len() implies #[trigger] ix.can_take(ws2[i], fs2[i])
                && ws2[i + 1] == ix.target(ws2[i], fs2[i]) by {
                assert(ix.can_take(ws[i], fs[i]));
            }
        }
        assert(ix.cost(ws, fs) == ix.cost(ws2, fs2) + ix.weight(ws[k], fs[k]));
        lemma_reach_bound(ix, dist, settled, level, to, bound, ws2, fs2);
        let u = ws2.last();
        assert(u == ws[k]);
        assert(ix.can_take(ws[k], fs[k]));
        assert(settled.contains(u as int));
        let j = choose|j: int|
            0 <= j < ix.around(ix.snode@[u as int]).len() && ix.around(ix.snode@[u as int])[j]
                == fs[k];
        assert(relaxed(ix, dist, u));
        assert(ix.around(ix.snode@[u as int])[j] == fs[k]);
        assert(ws[k + 1] == ix.target(u, fs[k]));
    }
}

/// When every state closer than `bound` is settled, no walk from a start
/// state that costs less than `bound` reaches `to`.
proof fn lemma_no_cheap_arrival(
    ix: &Index,
    from: usize,
    dist: Seq<Option<usize>>,
    prior: Seq<Option<(usize, usize)>>,
    stamp: Seq<int>,
    clock: int,
    settled: Set<int>,
    level: int,
    to: usize,
    bound: int,
    ws: Seq<usize>,
    fs: Seq<usize>,
)
    requires
        settled_ok(ix, dist, settled, level, to),
        prior_ok(ix, from, dist, prior, stamp, clock),
        forall|s: int|
            0 <= s < ix.ns() && #[trigger] dist[s] is Some && dist[s].unwrap() < bound
                ==> settled.contains(s),
        ix.arrives(from, to, ws, fs),
    ensures
        ix.cost(ws, fs) >= bound,
{
    assert(ix.is_start(from, ws[0]));
    if ix.cost(ws, fs) < bound {
        lemma_reach_bound(ix, dist, settled, level, to, bound, ws, fs);
        assert(settled.contains(ws.last() as int));
    }
}

/// Fewer states are settled than there are states, while `s` is not.
proof fn lemma_count_room(ix: &Index, settled: Set<int>, s: int)
    requires
        settled.subset_of(set_int_range(0, ix.ns())),
        settled.finite(),
        0 <= s < ix.ns(),
        !settled.contains(s),
    ensures
        settled.len() < ix.ns(),
{
    lemma_int_range(0, ix.ns());
    let r = set_int_range(0, ix.ns()).remove(s);
    assert(settled.subset_of(r));
    lemma_len_subset(settled, r);
}

/// Taking the front of the queue: its key becomes the level; a state at
/// `to` ends the search with its distance, no walk to `to` being cheaper;
/// any other state has its edges relaxed next.
proof fn lemma_after_pop(
    ix: &Index,
    edges: Seq<Edge>,
    from: usize,
    to: usize,
    dist: Seq<Option<usize>>,
    prior: Seq<Option<(usize, usize)>>,
    q0: Seq<usize>,
    keys0: Seq<int>,
    settled: Set<int>,
    level0: int,
    count: int,
    stamp: Seq<int>,
    clock: int,
)
    requires
        ix.wf(edges),
        search_ok(ix, from, to, dist, prior, q0, keys0, settled, level0, count, stamp, clock),
        q0.len() > 0,
    ensures
        ({
            let s = q0[0];
            let k = keys0[0];
            let q = q0.subrange(1, q0.len() as int);
            let keys = keys0.subrange(1, keys0.len() as int);
            let d = dist[s as int].unwrap() as int;
            &&& s < ix.ns()
            &&& dist[s as int] is Some
            &&& ix.snode@[s as int] == to ==> d == k && forall|ws: Seq<usize>, fs: Seq<usize>|
                #[trigger] ix.arrives(from, to, ws, fs) ==> k <= ix.cost(ws, fs)
            &&& ix.snode@[s as int] != to ==> relax_ok(
                ix,
                from,
                to,
                dist,
                prior,
                q,
                keys,
                settled,
                k,
                count,
                stamp,
                clock,
                s,
                d,
                0,
            )
        }),
{
    let s = q0[0];
    let k = keys0[0];
    let q = q0.subrange(1, q0.len() as int);
    let keys = keys0.subrange(1, keys0.len() as int);
    let d = dist[s as int].unwrap() as int;
    assert(s < ix.ns() && dist[s as int] is Some && d <= k);
    assert(level0 <= k <= level0 + 1);
    assert(queue_ok(ix, dist, q, keys, k)) by {
        assert forall|i: int| 0 <= i < q.len() implies {
            &&& #[trigger] q[i] < ix.ns()
            &&& dist[q[i] as int] is Some
            &&& dist[q[i] as int].unwrap() <= keys[i]
            &&& k <= keys[i] <= k + 1
        } by {
            assert(q[i] == q0[i + 1]);
            assert(keys[i] == keys0[i + 1]);
            assert(keys0[0] <= keys0[i + 1]);
            assert(q0[i + 1] < ix.ns());
        }
        assert forall|i: int, j: int| 0 <= i <= j < q.len() implies keys[i] <= keys[j] by {
            assert(keys[i] == keys0[i + 1]);
            assert(keys[j] == keys0[j + 1]);
        }
    }
    assert(below_settled(ix, dist, settled, k)) by {
        assert forall|x: int|
            0 <= x < ix.ns() && #[trigger] dist[x] is Some && dist[x].unwrap() < k implies settled.contains(
            x,
        ) by {
            if dist[x].unwrap() >= level0 && !settled.contains(x) {
                let i = choose|i: int|
                    0 <= i < q0.len() && q0[i] == x && keys0[i] == dist[x].unwrap();
                assert(keys0[0] <= keys0[i]);
            }
        }
    }
    assert(waiting_ok(ix, dist, settled, q, keys, s as int)) by {
        assert forall|x: int|
            0 <= x < ix.ns() && #[trigger] dist[x] is Some && !settled.contains(x) && x
                != s as int implies exists|i: int|
            0 <= i < q.len() && q[i] == x && keys[i] == dist[x].unwrap() by {
            let i = choose|i: int|
                0 <= i < q0.len() && q0[i] == x && keys0[i] == dist[x].unwrap();
            assert(i != 0);
            assert(q[i - 1] == q0[i] && keys[i - 1] == keys0[i]);
        }
    }
    let extra: int = if settled.contains(s as int) {
        0
    } else {
        1
    };
    assert(count_ok(ix, settled, keys, k, count, extra)) by {
        if k == level0 + 1 {
            assert(0 <= 0 < keys0.len() && keys0[0] == level0 + 1);
        }
        if exists|i: int| 0 <= i < keys.len() && keys[i] == k + 1 {
            let i = choose|i: int| 0 <= i < keys.len() && keys[i] == k + 1;
            assert(keys[i] == keys0[i + 1]);
            assert(keys0[0] <= keys0[i + 1]);
            assert(q0[i + 1] < ix.ns());
            assert(0 <= i + 1 < keys0.len() && keys0[i + 1] == level0 + 1);
        }
    }
    if !settled.contains(s as int) {
        assert(d >= k);
        lemma_count_room(ix, settled, s as int);
    }
    if ix.snode@[s as int] == to {
        assert forall|ws: Seq<usize>, fs: Seq<usize>| #[trigger]
            ix.arrives(from, to, ws, fs) implies k <= ix.cost(ws, fs) by {
            lemma_no_cheap_arrival(
                ix,
                from,
                dist,
                prior,
                stamp,
                clock,
                settled,
                level0,
                to,
                k,
                ws,
                fs,
            );
        }
    }
}

/// Relaxing the edge at position `j` out of `s` changes nothing when its
/// target is already close enough.
proof fn lemma_relax_keep(
    ix: &Index,
    from: usize,
    to: usize,
    dist: Seq<Option<usize>>,
    prior: Seq<Option<(usize, usize)>>,
    q: Seq<usize>,
    keys: Seq<int>,
    settled: Set<int>,
    level: int,
    count: int,
    stamp: Seq<int>,
    clock: int,
    s: usize,
    d: int,
    j: int,
)
    requires
        relax_ok(ix, from, to, dist, prior, q, keys, settled, level, count, stamp, clock, s, d, j),
        j < ix.around(ix.snode@[s as int]).len(),
        ({
            let e = ix.around(ix.snode@[s as int])[j];
            let t = ix.target(s, e);
            dist[t as int] is Some && dist[t as int].unwrap() <= d + ix.weight(s, e)
        }),
    ensures
        relax_ok(ix, from, to, dist, prior, q, keys, settled, level, count, stamp, clock, s, d, j + 1),
{
}

/// Relaxing the edge at position `j` out of `s` when it brings its target
/// closer: the target takes the new distance, `s` as prior step and a fresh
/// stamp, and is queued at the front when the edge keeps the name, at the
/// back otherwise.
#[verifier::rlimit(50)]
proof fn lemma_relax_improve(
    ix: &Index,
    edges: Seq<Edge>,
    from: usize,
    to: usize,
    dist: Seq<Option<usize>>,
    prior: Seq<Option<(usize, usize)>>,
    q: Seq<usize>,
    keys: Seq<int>,
    settled: Set<int>,
    level: int,
    count: int,
    stamp: Seq<int>,
    clock: int,
    s: usize,
    d: int,
    j: int,
    e: usize,
    t: usize,
    cand: int,
)
    requires
        ix.wf(edges),
        relax_ok(ix, from, to, dist, prior, q, keys, settled, level, count, stamp, clock, s, d, j),
        j < ix.around(ix.snode@[s as int]).len(),
        e == ix.around(ix.snode@[s as int])[j],
        t == ix.target(s, e),
        cand == d + ix.weight(s, e),
        dist[t as int] is None || cand < dist[t as int].unwrap(),
    ensures
        !settled.contains(s as int),
        ({
            let dist2 = dist.update(t as int, Some(cand as usize));
            let prior2 = prior.update(t as int, Some((s, e)));
            let stamp2 = stamp.update(t as int, clock);
            let front = ix.weight(s, e) == 0;
            let q2 = if front {
                seq![t] + q
            } else {
                q.push(t)
            };
            let keys2 = if front {
                seq![cand] + keys
            } else {
                keys.push(cand)
            };
            relax_ok(
                ix,
                from,
                to,
                dist2,
                prior2,
                q2,
                keys2,
                settled,
                level,
                count,
                stamp2,
                clock + 1,
                s,
                d,
                j + 1,
            )
        }),
{
    let n = ix.snode@[s as int];
    let dist2 = dist.update(t as int, Some(cand as usize));
    let prior2 = prior.update(t as int, Some((s, e)));
    let stamp2 = stamp.update(t as int, clock);
    let front = ix.weight(s, e) == 0;
    let q2 = if front {
        seq![t] + q
    } else {
        q.push(t)
    };
    let keys2 = if front {
        seq![cand] + keys
    } else {
        keys.push(cand)
    };
    assert(ix.adj@[n as int]@[j] == e);
    assert(e < edges.len());
    assert(t < ix.ns());
    if settled.contains(s as int) {
        assert(relaxed(ix, dist, s));
        assert(ix.around(n)[j] == e);
        assert(false);
    }
    assert(d == level);
    assert(t != s);
    assert(!settled.contains(t as int));
    assert(forall|x: int| 0 <= x < ix.ns() && x != t ==> dist2[x] == dist[x]);
    assert(forall|x: int|
        0 <= x < ix.ns() && #[trigger] dist2[x] is Some ==> dist[x] is Some && dist2[x].unwrap()
            <= dist[x].unwrap() || x == t);
    assert(queue_ok(ix, dist2, q2, keys2, level)) by {
        assert forall|i: int| 0 <= i < q2.len() implies {
            &&& #[trigger] q2[i] < ix.ns()
            &&& dist2[q2[i] as int] is Some
            &&& dist2[q2[i] as int].unwrap() <= keys2[i]
            &&& level <= keys2[i] <= level + 1
        } by {
            if front {
                if i > 0 {
                    assert(q2[i] == q[i - 1] && keys2[i] == keys[i - 1]);
                }
            } else {
                if i < q.len() {
                    assert(q2[i] == q[i] && keys2[i] == keys[i]);
                }
            }
        }
        assert forall|i: int, k: int| 0 <= i <= k < q2.len() implies keys2[i] <= keys2[k] by {
            if front {
                if i > 0 {
                    assert(keys2[i] == keys[i - 1] && keys2[k] == keys[k - 1]);
                } else {
                    if k > 0 {
                        assert(keys2[k] == keys[k - 1]);
                        assert(q[k - 1] < ix.ns());
                    }
                }
            } else {
                if k < q.len() {
                    assert(keys2[i] == keys[i] && keys2[k] == keys[k]);
                } else if i < q.len() {
                    assert(keys2[i] == keys[i]);
                    assert(q[i] < ix.ns());
                }
            }
        }
    }
    assert(settled_ok(ix, dist2, settled, level, to)) by {
        assert forall|x: int| #[trigger] settled.contains(x) implies {
            &&& 0 <= x < ix.ns()
            &&& dist2[x] is Some
            &&& dist2[x].unwrap() <= level
            &&& dist2[x].unwrap() < ix.ns()
            &&& ix.snode@[x] != to
            &&& relaxed(ix, dist2, x as usize)
        } by {
            let xs = x as usize;
            assert(xs as int == x);
            assert(relaxed(ix, dist, xs));
            assert(dist2[x] == dist[x]);
            assert forall|jj: int| 0 <= jj < ix.around(ix.snode@[xs as int]).len() implies {
                let f = #[trigger] ix.around(ix.snode@[xs as int])[jj];
                let u = ix.target(xs, f);
                &&& dist2[u as int] is Some
                &&& dist2[u as int].unwrap() <= dist2[xs as int].unwrap() + ix.weight(xs, f)
            } by {
                let f = ix.around(ix.snode@[xs as int])[jj];
                assert(ix.adj@[ix.snode@[xs as int] as int]@[jj] == f);
                assert(f < edges.len());
                let u = ix.target(xs, f);
                assert(dist[u as int] is Some);
                assert(dist[u as int].unwrap() <= dist[xs as int].unwrap() + ix.weight(xs, f));
            }
        }
    }
    assert(below_settled(ix, dist2, settled, level));
    assert(waiting_ok(ix, dist2, settled, q2, keys2, s as int)) by {
        assert forall|x: int|
            0 <= x < ix.ns() && #[trigger] dist2[x] is Some && !settled.contains(x) && x
                != s as int implies exists|i: int|
            0 <= i < q2.len() && q2[i] == x && keys2[i] == dist2[x].unwrap() by {
            if x == t {
                if front {
                    assert(q2[0] == t && keys2[0] == cand);
                } else {
                    assert(q2[q.len() as int] == t && keys2[q.len() as int] == cand);
                }
            } else {
                let i = choose|i: int| 0 <= i < q.len() && q[i] == x && keys[i] == dist[x].unwrap();
                if front {
                    assert(q2[i + 1] == x && keys2[i + 1] == keys[i]);
                } else {
                    assert(q2[i] == x && keys2[i] == keys[i]);
                }
            }
        }
    }
    assert(prior_ok(ix, from, dist2, prior2, stamp2, clock + 1)) by {
        assert forall|x: usize| #[trigger] ix.is_start(from, x) implies dist2[x as int] == Some(
            0usize,
        ) by {
            if x == t {
                assert(dist[t as int] == Some(0usize));
            }
        }
        assert forall|x: int| 0 <= x < ix.ns() implies 0 <= #[trigger] stamp2[x] < clock + 1 by {
            assert(0 <= stamp[x] < clock);
        }
        assert forall|x: int|
            0 <= x < ix.ns() && dist2[x] is Some && #[trigger] prior2[x] is None implies ix.is_start(
            from,
            x as usize,
        ) by {
            assert(prior[x] is None);
        }
        assert forall|x: int| 0 <= x < ix.ns() && #[trigger] prior2[x] is Some implies {
            let p = prior2[x].unwrap().0;
            let f = prior2[x].unwrap().1;
            &&& p < ix.ns()
            &&& f < ix.ne()
            &&& dist2[p as int] is Some
            &&& dist2[x] is Some
            &&& ix.can_take(p, f)
            &&& x == ix.target(p, f)
            &&& stamp2[x] >= 1
            &&& (dist2[x].unwrap() > dist2[p as int].unwrap() + ix.weight(p, f) || (dist2[x].unwrap()
                == dist2[p as int].unwrap() + ix.weight(p, f) && stamp2[p as int] < stamp2[x]))
        } by {
            if x == t {
                assert(ix.around(n).contains(e)) by {
                    assert(ix.around(n)[j] == e);
                }
                assert(stamp[s as int] < clock);
            } else {
                assert(prior[x] is Some);
                let p = prior[x].unwrap().0;
                assert(0 <= stamp[x] < clock);
                assert(0 <= stamp[p as int] < clock);
            }
        }
    }
    assert(count_ok(ix, settled, keys2, level, count, 1)) by {
        if exists|i: int| 0 <= i < keys2.len() && keys2[i] == level + 1 {
            let i = choose|i: int| 0 <= i < keys2.len() && keys2[i] == level + 1;
            if front {
                if i > 0 {
                    assert(keys2[i] == keys[i - 1]);
                }
            } else if i < q.len() {
                assert(keys2[i] == keys[i]);
            }
        }
    }
    assert(relaxed_below(ix, dist2, s, d, j + 1)) by {
        assert forall|jj: int| 0 <= jj < j + 1 implies {
            let f = #[trigger] ix.around(ix.snode@[s as int])[jj];
            let u = ix.target(s, f);
            &&& dist2[u as int] is Some
            &&& dist2[u as int].unwrap() <= d + ix.weight(s, f)
        } by {
            let f = ix.around(n)[jj];
            assert(ix.adj@[n as int]@[jj] == f);
            assert(f < edges.len());
        }
    }
}

/// Once every edge out of `s` is relaxed, `s` is settled.
proof fn lemma_after_relax(
    ix: &Index,
    from: usize,
    to: usize,
    dist: Seq<Option<usize>>,
    prior: Seq<Option<(usize, usize)>>,
    q: Seq<usize>,
    keys: Seq<int>,
    settled: Set<int>,
    level: int,
    count: int,
    stamp: Seq<int>,
    clock: int,
    s: usize,
    d: int,
)
    requires
        relax_ok(
            ix,
            from,
            to,
            dist,
            prior,
            q,
            keys,
            settled,
            level,
            count,
            stamp,
            clock,
            s,
            d,
            ix.around(ix.snode@[s as int]).len() as int,
        ),
    ensures
        search_ok(
            ix,
            from,
            to,
            dist,
            prior,
            q,
            keys,
            settled.insert(s as int),
            level,
            if settled.contains(s as int) {
                count
            } else {
                count + 1
            },
            stamp,
            clock,
        ),
{
    let settled2 = settled.insert(s as int);
    assert(relaxed(ix, dist, s));
    assert(settled_ok(ix, dist, settled2, level, to));
    assert(below_settled(ix, dist, settled2, level));
    assert(waiting_ok(ix, dist, settled2, q, keys, -1));
    lemma_int_range(0, ix.ns());
}

/// Putting a step in front of a walk adds the cost of that step.
proof fn lemma_cost_prepend(ix: &Index, p: usize, e: usize, ws: Seq<usize>, fs: Seq<usize>)
    requires
        ws.len() == fs.len() + 1,
    ensures
        ix.cost(seq![p] + ws, seq![e] + fs) == ix.weight(p, e) + ix.cost(ws, fs),
    decreases fs.len(),
{
    let ws1 = seq![p] + ws;
    let fs1 = seq![e] + fs;
    if fs.len() == 0 {
        assert(ws1.drop_last() =~= seq![p]);
        assert(fs1.drop_last() =~= Seq::<usize>::empty());
        assert(ix.cost(seq![p], Seq::<usize>::empty()) == 0);
        assert(ws1[0] == p && fs1[0] == e);
    } else {
        let k = fs.len() - 1;
        lemma_cost_prepend(ix, p, e, ws.drop_last(), fs.drop_last());
        assert(ws1.drop_last() =~= seq![p] + ws.drop_last());
        assert(fs1.drop_last() =~= seq![e] + fs.drop_last());
        assert(ws1[fs1.len() - 1] == ws[k]);
        assert(fs1[fs1.len() - 1] == fs[k]);
    }
}

/// Searches, from the start states `starts` of node `from`, the walk to
/// node `to` with the fewest changes of edge name, and returns that number
/// of changes with one such walk (its states and its edges); `None` when no
/// walk from a start state reaches `to`.
pub fn search(
    ix: &Index,
    Ghost(edges): Ghost<Seq<Edge>>,
    from: usize,
    to: usize,
    starts: &Vec<usize>,
) -> (r: Option<(usize, Vec<usize>, Vec<usize>)>)
    requires
        ix.wf(edges),
        from < ix.nn(),
        to < ix.nn(),
        from != to,
        forall|i: int| 0 <= i < starts@.len() ==> ix.is_start(from, #[trigger] starts@[i]),
        forall|s: usize| #[trigger] ix.is_start(from, s) ==> starts@.contains(s),
    ensures
        match r {
            Some((turns, ws, fs)) => {
                let out = outcome(ix.graph(), to, init_run(ix.ns() as nat, starts@));
                &&& out.found == Some(ws@.last())
                &&& turns == out.dist[ws@.last() as int].unwrap()
                &&& (ws@, fs@) == trace(out.prior, ws@.last(), ix.ns() as nat)
                &&& ix.arrives(from, to, ws@, fs@)
                &&& ix.cost(ws@, fs@) <= turns
                &&& forall|i: int, j: int| 0 <= i < j < ws@.len() ==> ws@[i] != ws@[j]
                &&& forall|ws2: Seq<usize>, fs2: Seq<usize>| #[trigger]
                    ix.arrives(from, to, ws2, fs2) ==> turns <= ix.cost(ws2, fs2)
            },
            None => {
                &&& outcome(ix.graph(), to, init_run(ix.ns() as nat, starts@)).found is None
                &&& forall|ws2: Seq<usize>, fs2: Seq<usize>| !#[trigger] ix.arrives(from, to, ws2, fs2)
            },
        },
{
    let ns = ix.snode.len();
    let mut dist: Vec<Option<usize>> = Vec::new();
    let mut prior: Vec<Option<(usize, usize)>> = Vec::new();
    let mut i: usize = 0;
    while i < ns
        invariant
            ns == ix.ns(),
            i <= ns,
            dist@.len() == i,
            prior@.len() == i,
            forall|k: int| 0 <= k < i ==> dist@[k] is None && prior@[k] is None,
        decreases ns - i,
    {
        dist.push(None);
        prior.push(None);
        i = i + 1;
    }
    let mut q: VecDeque<usize> = VecDeque::new();
    let mut k: usize = 0;
    while k < starts.len()
        invariant
            ix.wf(edges),
            ns == ix.ns(),
            k <= starts@.len(),
            dist@.len() == ns,
            prior@.len() == ns,
            forall|x: int| 0 <= x < ns ==> prior@[x] is None,
            forall|i: int| 0 <= i < starts@.len() ==> ix.is_start(from, #[trigger] starts@[i]),
            q@ == starts@.take(k as int),
            forall|x: int|
                0 <= x < ns ==> (#[trigger] dist@[x] is Some <==> starts@.take(k as int).contains(
                    x as usize,
                )) && (dist@[x] is Some ==> dist@[x] == Some(0usize)),
        decreases starts@.len() - k,
    {
        let st = starts[k];
        assert(ix.is_start(from, starts@[k as int]));
        let ghost dist0 = dist@;
        dist.set(st, Some(0));
        q.push_back(st);
        assert(starts@.take(k + 1) =~= starts@.take(k as int).push(st));
        assert forall|x: int|
            0 <= x < ns implies (#[trigger] dist@[x] is Some <==> starts@.take(k + 1).contains(
            x as usize,
        )) && (dist@[x] is Some ==> dist@[x] == Some(0usize)) by {
            assert(x as usize as int == x);
            if x != st as int {
                assert(dist@[x] == dist0[x]);
                if starts@.take(k + 1).contains(x as usize) {
                    let i = choose|i: int| 0 <= i < k + 1 && #[trigger] starts@.take(k + 1)[i] == x as usize;
                    assert(i < k);
                    assert(starts@.take(k as int)[i] == x as usize);
                }
            } else {
                assert(starts@.take(k + 1)[k as int] == st);
            }
        }
        k = k + 1;
    }
    assert(starts@.take(k as int) =~= starts@);
    let ghost mut keys: Seq<int> = Seq::new(q@.len(), |i: int| 0int);
    let ghost mut settled: Set<int> = Set::empty();
    let ghost mut level: int = 0;
    let ghost mut count: int = 0;
    let ghost mut stamp: Seq<int> = Seq::new(ns as nat, |i: int| 0int);
    let ghost mut clock: int = 1;
    let ghost g = ix.graph();
    let ghost r0 = init_run(ix.ns() as nat, starts@);
    let ghost mut taken: nat = 0;
    proof {
        assert(dist@ =~= r0.dist) by {
            assert forall|x: int| 0 <= x < ns implies dist@[x] == r0.dist[x] by {
                assert(x as usize as int == x);
            }
        }
        assert(prior@ =~= r0.prior);
        assert(q@ == r0.q);
        assert forall|x: int|
            0 <= x < ix.ns() && #[trigger] dist@[x] is Some && !settled.contains(x) && x != -1 implies exists|i: int|
            0 <= i < q@.len() && q@[i] == x && keys[i] == dist@[x].unwrap() by {
            assert(x as usize as int == x);
            assert(starts@.contains(x as usize));
            let i = choose|i: int| 0 <= i < starts@.len() && starts@[i] == x as usize;
            assert(q@[i] == x);
            assert(keys[i] == 0);
        }
        assert forall|s: usize| #[trigger] ix.is_start(from, s) implies dist@[s as int] == Some(0usize) by {
            assert(starts@.contains(s));
        }
        assert forall|x: int|
            0 <= x < ix.ns() && dist@[x] is Some && #[trigger] prior@[x] is None implies ix.is_start(
            from,
            x as usize,
        ) by {
            assert(x as usize as int == x);
            assert(starts@.contains(x as usize));
            let i = choose|i: int| 0 <= i < starts@.len() && starts@[i] == x as usize;
            assert(ix.is_start(from, starts@[i]));
        }
        assert(settled.subset_of(set_int_range(0, ix.ns())));
        assert(search_ok(ix, from, to, dist@, prior@, q@, keys, settled, level, count, stamp, clock));
    }
    loop
        invariant
            ix.wf(edges),
            ns == ix.ns(),
            from < ix.nn(),
            to < ix.nn(),
            from != to,
            search_ok(ix, from, to, dist@, prior@, q@, keys, settled, level, count, stamp, clock),
            g == ix.graph(),
            r0 == init_run(ix.ns() as nat, starts@),
            run_for(g, to, r0, taken) == (Run {
                dist: dist@,
                prior: prior@,
                q: q@,
                over: false,
                found: None,
            }),
        decreases ix.ns() - count, q@.len(),
    {
        let ghost q0 = q@;
        let ghost keys0 = keys;
        let ghost level0 = level;
        let popped = q.pop_front();
        match popped {
            None => {
                proof {
                    assert forall|ws2: Seq<usize>, fs2: Seq<usize>| !#[trigger]
                        ix.arrives(from, to, ws2, fs2) by {
                        if ix.arrives(from, to, ws2, fs2) {
                            let bound = ix.cost(ws2, fs2) + 1;
                            assert forall|x: int|
                                0 <= x < ix.ns() && #[trigger] dist@[x] is Some && dist@[x].unwrap()
                                    < bound implies settled.contains(x) by {
                                if !settled.contains(x) {
                                    assert(waiting_ok(ix, dist@, settled, q@, keys, -1));
                                }
                            }
                            lemma_no_cheap_arrival(
                                ix,
                                from,
                                dist@,
                                prior@,
                                stamp,
                                clock,
                                settled,
                                level,
                                to,
                                bound,
                                ws2,
                                fs2,
                            );
                        }
                    }
                    assert(run_for(g, to, r0, taken + 1).over);
                    lemma_outcome(g, to, r0, taken + 1);
                }
                return None;
            },
            Some(s) => {
                proof {
                    lemma_after_pop(
                        ix,
                        edges,
                        from,
                        to,
                        dist@,
                        prior@,
                        q0,
                        keys0,
                        settled,
                        level0,
                        count,
                        stamp,
                        clock,
                    );
                    keys = keys0.subrange(1, keys0.len() as int);
                    level = keys0[0];
                }
                let d = dist[s].unwrap();
                let ghost r1 = Run { dist: dist@, prior: prior@, q: q@, over: false, found: None };
                assert(q@ == q0.drop_first());
                if ix.snode[s] == to {
                    let (ws, fs) = trace_back(ix, from, &dist, &prior, s, Ghost(stamp), Ghost(clock));
                    proof {
                        assert(run_for(g, to, r0, taken + 1).over);
                        lemma_outcome(g, to, r0, taken + 1);
                    }
                    return Some((d, ws, fs));
                }
                let n = ix.snode[s];
                let ghost count0 = count;
                let ghost was_settled = settled.contains(s as int);
                let ghost qlen = q@.len();
                assert(qlen < q0.len());
                let mut j: usize = 0;
                assert(g.adj[n as int] == ix.adj@[n as int]@);
                assert(relax_upto(g, r1, s, d, 0) == r1);
                while j < ix.adj[n].len()
                    invariant
                        ix.wf(edges),
                        ns == ix.ns(),
                        n == ix.snode@[s as int],
                        n < ix.nn(),
                        was_settled == settled.contains(s as int),
                        was_settled ==> q@.len() == qlen,
                        count == count0,
                        g == ix.graph(),
                        r0 == init_run(ix.ns() as nat, starts@),
                        d == dist@[s as int].unwrap(),
                        run_for(g, to, r0, taken + 1) == relax_upto(
                            g,
                            r1,
                            s,
                            d,
                            g.adj[n as int].len(),
                        ),
                        relax_upto(g, r1, s, d, j as nat) == (Run {
                            dist: dist@,
                            prior: prior@,
                            q: q@,
                            over: false,
                            found: None,
                        }),
                        relax_ok(
                            ix,
                            from,
                            to,
                            dist@,
                            prior@,
                            q@,
                            keys,
                            settled,
                            level,
                            count,
                            stamp,
                            clock,
                            s,
                            d as int,
                            j as int,
                        ),
                    decreases ix.around(n).len() - j,
                {
                    let e = ix.adj[n][j];
                    proof {
                        assert(ix.adj@[n as int]@[j as int] == e);
                    }
                    let t = if ix.prev[e] == n {
                        ix.snext[e]
                    } else {
                        ix.sprev[e]
                    };
                    let turn: usize = if ix.name[e] != ix.sname[s] {
                        1
                    } else {
                        0
                    };
                    let cand = d + turn;
                    let better = match dist[t] {
                        Some(known) => cand < known,
                        None => true,
                    };
                    if better {
                        proof {
                            lemma_relax_improve(
                                ix,
                                edges,
                                from,
                                to,
                                dist@,
                                prior@,
                                q@,
                                keys,
                                settled,
                                level,
                                count,
                                stamp,
                                clock,
                                s,
                                d as int,
                                j as int,
                                e,
                                t,
                                cand as int,
                            );
                        }
                        dist.set(t, Some(cand));
                        prior.set(t, Some((s, e)));
                        proof {
                            stamp = stamp.update(t as int, clock);
                            clock = clock + 1;
                        }
                        if turn == 0 {
                            q.push_front(t);
                            proof {
                                keys = seq![cand as int] + keys;
                            }
                        } else {
                            q.push_back(t);
                            proof {
                                keys = keys.push(cand as int);
                            }
                        }
                    } else {
                        proof {
                            lemma_relax_keep(
                                ix,
                                from,
                                to,
                                dist@,
                                prior@,
                                q@,
                                keys,
                                settled,
                                level,
                                count,
                                stamp,
                                clock,
                                s,
                                d as int,
                                j as int,
                            );
                        }
                    }
                    j = j + 1;
                }
                proof {
                    lemma_after_relax(
                        ix,
                        from,
                        to,
                        dist@,
                        prior@,
                        q@,
                        keys,
                        settled,
                        level,
                        count,
                        stamp,
                        clock,
                        s,
                        d as int,
                    );
                    if !was_settled {
                        count = count + 1;
                    }
                    settled = settled.insert(s as int);
                    lemma_int_range(0, ix.ns());
                    lemma_len_subset(settled, set_int_range(0, ix.ns()));
                    taken = taken + 1;
                }
            },
        }
    }
}

/// State `a` comes before state `b` in the order that following prior
/// steps descends: smaller distance, or equal distance and smaller stamp.
pub open spec fn earlier(dist: Seq<Option<usize>>, stamp: Seq<int>, a: usize, b: usize) -> bool {
    ||| dist[a as int].unwrap() < dist[b as int].unwrap()
    ||| (dist[a as int].unwrap() == dist[b as int].unwrap() && stamp[a as int] < stamp[b as int])
}

/// Follows prior steps back from `dest` to a start state.
fn trace_back(
    ix: &Index,
    from: usize,
    dist: &Vec<Option<usize>>,
    prior: &Vec<Option<(usize, usize)>>,
    dest: usize,
    Ghost(stamp): Ghost<Seq<int>>,
    Ghost(clock): Ghost<int>,
) -> (r: (Vec<usize>, Vec<usize>))
    requires
        prior_ok(ix, from, dist@, prior@, stamp, clock),
        dest < ix.ns(),
        dist@[dest as int] is Some,
    ensures
        ix.is_walk(r.0@, r.1@),
        ix.is_start(from, r.0@[0]),
        r.0@.last() == dest,
        ix.cost(r.0@, r.1@) <= dist@[dest as int].unwrap(),
        forall|i: int, j: int| 0 <= i < j < r.0@.len() ==> r.0@[i] != r.0@[j],
        (r.0@, r.1@) == trace(prior@, dest, ix.ns() as nat),
{
    let mut ws: Vec<usize> = vec![dest];
    let mut fs: Vec<usize> = Vec::new();
    let mut cur = dest;
    proof {
        let t0 = trace(prior@, dest, ix.ns() as nat);
        assert(t0.0 + ws@.skip(1) =~= t0.0);
        assert(t0.1 + fs@ =~= t0.1);
    }
    while prior[cur].is_some()
        invariant
            prior_ok(ix, from, dist@, prior@, stamp, clock),
            dest < ix.ns(),
            dist@[dest as int] is Some,
            cur < ix.ns(),
            dist@[cur as int] is Some,
            ix.is_walk(ws@, fs@),
            ws@[0] == cur,
            ws@.last() == dest,
            ix.cost(ws@, fs@) + dist@[cur as int].unwrap() <= dist@[dest as int].unwrap(),
            forall|i: int, j: int|
                0 <= i < j < ws@.len() ==> earlier(dist@, stamp, #[trigger] ws@[i], #[trigger] ws@[j]),
            fs@.len() <= ix.ns(),
            trace(prior@, dest, ix.ns() as nat) == (trace(
                prior@,
                cur,
                (ix.ns() - fs@.len()) as nat,
            ).0 + ws@.skip(1), trace(prior@, cur, (ix.ns() - fs@.len()) as nat).1 + fs@),
        decreases dist@[cur as int].unwrap(), stamp[cur as int],
    {
        let (p, e) = prior[cur].unwrap();
        let ghost ws0 = ws@;
        let ghost fs0 = fs@;
        proof {
            lemma_cost_prepend(ix, p, e, ws0, fs0);
            assert forall|i: int, j: int| 0 <= i < j < ws0.len() implies ws0[i] != ws0[j] by {
                assert(earlier(dist@, stamp, ws0[i], ws0[j]));
            }
            lemma_distinct_bound(ws0, ix.ns() as nat);
            let fuel = (ix.ns() - fs0.len()) as nat;
            let back = trace(prior@, p, (fuel - 1) as nat);
            assert(trace(prior@, cur, fuel) == (back.0.push(cur), back.1.push(e)));
            assert(back.0.push(cur) + ws0.skip(1) =~= back.0 + (seq![p] + ws0).skip(1));
            assert(back.1.push(e) + fs0 =~= back.1 + (seq![e] + fs0));
            assert((ix.ns() - (fs0.len() + 1)) as nat == (fuel - 1) as nat);
        }
        ws.insert(0, p);
        fs.insert(0, e);
        assert(ws@ =~= seq![p] + ws0);
        assert(fs@ =~= seq![e] + fs0);
        assert forall|i: int| 0 <= i < fs@.len() implies #[trigger] ix.can_take(ws@[i], fs@[i])
            && ws@[i + 1] == ix.target(ws@[i], fs@[i]) by {
            if i > 0 {
                assert(ws@[i] == ws0[i - 1]);
                assert(fs@[i] == fs0[i - 1]);
                assert(ix.can_take(ws0[i - 1], fs0[i - 1]));
            }
        }
        assert forall|i: int| 0 <= i < ws@.len() implies #[trigger] ws@[i] < ix.ns() by {
            if i > 0 {
                assert(ws@[i] == ws0[i - 1]);
            }
        }
        assert(earlier(dist@, stamp, p, cur));
        assert forall|i: int, j: int|
            0 <= i < j < ws@.len() implies earlier(dist@, stamp, #[trigger] ws@[i], #[trigger] ws@[j]) by {
            if i == 0 {
                assert(ws@[j] == ws0[j - 1]);
                if j > 1 {
                    assert(earlier(dist@, stamp, ws0[0], ws0[j - 1]));
                }
            } else {
                assert(ws@[i] == ws0[i - 1]);
                assert(ws@[j] == ws0[j - 1]);
            }
        }
        cur = p;
    }
    assert(prior@[cur as int] is None);
    assert(seq![cur] + ws@.skip(1) =~= ws@);
    assert(Seq::<usize>::empty() + fs@ =~= fs@);
    assert forall|i: int, j: int| 0 <= i < j < ws@.len() implies ws@[i] != ws@[j] by {
        assert(earlier(dist@, stamp, ws@[i], ws@[j]));
    }
    (ws, fs)
}

} // verus!
