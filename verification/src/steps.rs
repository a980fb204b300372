//! The search step by step, as spec functions: which state is taken from
//! the queue, which edges are relaxed in which order, and which route the
//! prior steps trace.  These fix the one route the search returns among
//! routes with equally few turns.
use vstd::prelude::*;
use vstd::set_lib::*;

verus! {

/// The numbered graph, as values.
pub struct Graph {
    pub prev: Seq<usize>,
    pub next: Seq<usize>,
    pub name: Seq<usize>,
    pub adj: Seq<Seq<usize>>,
    pub snode: Seq<usize>,
    pub sname: Seq<usize>,
    pub sprev: Seq<usize>,
    pub snext: Seq<usize>,
}

/// The state of a search: distances, prior steps, the queue, and, once it
/// is over, the state at the goal it reached, if any.
pub struct Run {
    pub dist: Seq<Option<usize>>,
    pub prior: Seq<Option<(usize, usize)>>,
    pub q: Seq<usize>,
    pub over: bool,
    pub found: Option<usize>,
}

/// The state reached from `s` along edge `e`.
pub open spec fn g_target(g: Graph, s: usize, e: usize) -> usize {
    if g.prev[e as int] == g.snode[s as int] {
        g.snext[e as int]
    } else {
        g.sprev[e as int]
    }
}

/// 1 when edge `e` changes the name of state `s`, else 0.
pub open spec fn g_turn(g: Graph, s: usize, e: usize) -> usize {
    if g.name[e as int] != g.sname[s as int] {
        1
    } else {
        0
    }
}

/// The search after relaxing the first `j` edges out of state `s`, at
/// distance `d`: an edge that brings its target closer sets its distance and
/// prior step and queues it, at the front when it keeps the name.
pub open spec fn relax_upto(g: Graph, r: Run, s: usize, d: usize, j: nat) -> Run
    decreases j,
{
    if j == 0 {
        r
    } else {
        let r0 = relax_upto(g, r, s, d, (j - 1) as nat);
        let e = g.adj[g.snode[s as int] as int][j - 1];
        let t = g_target(g, s, e);
        let turn = g_turn(g, s, e);
        let cand = (d + turn) as usize;
        let better = match r0.dist[t as int] {
            Some(k) => cand < k,
            None => true,
        };
        if better {
            Run {
                dist: r0.dist.update(t as int, Some(cand)),
                prior: r0.prior.update(t as int, Some((s, e))),
                q: if turn == 0 {
                    seq![t] + r0.q
                } else {
                    r0.q.push(t)
                },
                over: r0.over,
                found: r0.found,
            }
        } else {
            r0
        }
    }
}

/// One step of the search: take the front of the queue; stop at a state of
/// node `to`; otherwise relax every edge out of it.  An empty queue ends the
/// search without a find.
pub open spec fn step(g: Graph, to: usize, r: Run) -> Run {
    if r.over {
        r
    } else if r.q.len() == 0 {
        Run { dist: r.dist, prior: r.prior, q: r.q, over: true, found: None }
    } else {
        let s = r.q[0];
        let r1 = Run { dist: r.dist, prior: r.prior, q: r.q.drop_first(), over: false, found: None };
        if g.snode[s as int] == to {
            Run { dist: r.dist, prior: r.prior, q: r1.q, over: true, found: Some(s) }
        } else {
            relax_upto(g, r1, s, r.dist[s as int].unwrap(), g.adj[g.snode[s as int] as int].len())
        }
    }
}

/// The search after `k` steps.
pub open spec fn run_for(g: Graph, to: usize, r: Run, k: nat) -> Run
    decreases k,
{
    if k == 0 {
        r
    } else {
        step(g, to, run_for(g, to, r, (k - 1) as nat))
    }
}

/// The search when it is over.
pub open spec fn outcome(g: Graph, to: usize, r: Run) -> Run {
    run_for(g, to, r, choose|k: nat| run_for(g, to, r, k).over)
}

/// The search before its first step: the start states at distance 0,
/// queued in order.
pub open spec fn init_run(ns: nat, starts: Seq<usize>) -> Run {
    Run {
        dist: Seq::new(
            ns,
            |i: int|
                if starts.contains(i as usize) {
                    Some(0usize)
                } else {
                    None
                },
        ),
        prior: Seq::new(ns, |i: int| None),
        q: starts,
        over: false,
        found: None,
    }
}

/// The states and edges traced back from `cur` along prior steps, at most
/// `fuel` steps, first state first.
pub open spec fn trace(prior: Seq<Option<(usize, usize)>>, cur: usize, fuel: nat) -> (Seq<usize>, Seq<
    usize,
>)
    decreases fuel,
{
    if fuel == 0 || prior[cur as int] is None {
        (seq![cur], Seq::empty())
    } else {
        let p = prior[cur as int].unwrap().0;
        let e = prior[cur as int].unwrap().1;
        let back = trace(prior, p, (fuel - 1) as nat);
        (back.0.push(cur), back.1.push(e))
    }
}

/// A search that is over stays as it is.
pub proof fn lemma_over_stays(g: Graph, to: usize, r: Run, k: nat, m: nat)
    requires
        run_for(g, to, r, k).over,
        k <= m,
    ensures
        run_for(g, to, r, m) == run_for(g, to, r, k),
    decreases m - k,
{
    if m > k {
        lemma_over_stays(g, to, r, k, (m - 1) as nat);
    }
}

/// The outcome is the search at any step where it is over.
pub proof fn lemma_outcome(g: Graph, to: usize, r: Run, k: nat)
    requires
        run_for(g, to, r, k).over,
    ensures
        outcome(g, to, r) == run_for(g, to, r, k),
{
    let c = choose|c: nat| run_for(g, to, r, c).over;
    if c <= k {
        lemma_over_stays(g, to, r, c, k);
    } else {
        lemma_over_stays(g, to, r, k, c);
    }
}

/// Distinct states, each below `n`, are at most `n`.
pub proof fn lemma_distinct_bound(s: Seq<usize>, n: nat)
    requires
        forall|i: int, j: int| 0 <= i < j < s.len() ==> s[i] != s[j],
        forall|i: int| 0 <= i < s.len() ==> s[i] < n,
    ensures
        s.len() <= n,
{
    let t = s.map_values(|x: usize| x as int);
    assert(t.no_duplicates()) by {
        assert forall|i: int, j: int| 0 <= i < t.len() && 0 <= j < t.len() && i != j implies t[i]
            != t[j] by {
            if i < j {
                assert(s[i] != s[j]);
            } else {
                assert(s[j] != s[i]);
            }
        }
    }
    t.unique_seq_to_set();
    lemma_int_range(0, n as int);
    assert(t.to_set().subset_of(set_int_range(0, n as int))) by {
        assert forall|x: int| t.to_set().contains(x) implies set_int_range(0, n as int).contains(x) by {
            let i = choose|i: int| 0 <= i < t.len() && t[i] == x;
        }
    }
    lemma_len_subset(t.to_set(), set_int_range(0, n as int));
}

} // verus!
