//! Finding a route with the fewest turns, and cutting it into tasks.
use vstd::prelude::*;

use crate::graph::{
    passes_states_once, route_states, answers, describes, is_route, links, no_fewer_turns, path_view, reachable, route_names,
    segment_views, segments, texts, turn_count, Edge, FoundPath, PathView, Segment, TaskSegment,
};
use crate::index::{
    graph_of, insert_before_first, lemma_insert_before_first, lemma_text_id, name_table, node_table, position_of,
    text_id, Index,
};
use crate::steps::{init_run, outcome, trace, Graph};
use crate::search::search;
use crate::text::{chars_before, lemma_before_total, lemma_before_trans, text_before};

verus! {

/// The text of the edge name of state `s`.
pub open spec fn state_name_text(ix: &Index, s: usize) -> Seq<char> {
    ix.names@[ix.sname@[s as int] as int]@
}

/// The text of the node of state `s`.
pub open spec fn state_node_text(ix: &Index, s: usize) -> Seq<char> {
    ix.nodes@[ix.snode@[s as int] as int]@
}

/// The state at node `from` under the name of edge `e`.
pub open spec fn start_through(ix: &Index, from: usize, e: usize) -> usize {
    if ix.prev@[e as int] == from {
        ix.sprev@[e as int]
    } else {
        ix.snext@[e as int]
    }
}

/// The nodes a walk passes, as texts.
pub open spec fn walk_nodes(ix: &Index, ws: Seq<usize>) -> Seq<Seq<char>> {
    ws.map_values(|s: usize| state_node_text(ix, s))
}

/// The edges a walk takes.
pub open spec fn walk_steps(fs: Seq<usize>) -> Seq<int> {
    fs.map_values(|f: usize| f as int)
}

/// The id of the node with text `t`.
pub open spec fn node_of(ix: &Index, t: Seq<char>) -> usize {
    choose|n: usize| n < ix.nn() && ix.nodes@[n as int]@ == t
}

/// The id of the state of node `n` under name `m`.
pub open spec fn state_of(ix: &Index, n: usize, m: usize) -> usize {
    choose|s: usize| s < ix.ns() && ix.snode@[s as int] == n && ix.sname@[s as int] == m
}

/// Whether the name of state `x` comes before the name of state `st`, the
/// names as `names` lists them.
pub open spec fn name_before(g: Graph, names: Seq<Seq<char>>, st: usize) -> spec_fn(usize) -> bool {
    |x: usize| chars_before(names[g.sname[x as int] as int], names[g.sname[st as int] as int])
}

/// The start states at node `from` through its first `j` edges, each once,
/// ordered by the text of their names.
pub open spec fn start_order(g: Graph, names: Seq<Seq<char>>, from: usize, j: nat) -> Seq<usize>
    decreases j,
{
    if j == 0 {
        Seq::empty()
    } else {
        let l = start_order(g, names, from, (j - 1) as nat);
        let e = g.adj[from as int][j - 1];
        let st = if g.prev[e as int] == from {
            g.sprev[e as int]
        } else {
            g.snext[e as int]
        };
        if l.contains(st) {
            l
        } else {
            insert_before_first(l, st, name_before(g, names, st))
        }
    }
}

/// A walk without its last step is a walk.
proof fn lemma_walk_drop_last(ix: &Index, ws: Seq<usize>, fs: Seq<usize>)
    requires
        ix.is_walk(ws, fs),
        fs.len() > 0,
    ensures
        ix.is_walk(ws.drop_last(), fs.drop_last()),
{
    let ws2 = ws.drop_last();
    let fs2 = fs.drop_last();
    assert forall|i: int| 0 <= i < fs2.len() implies #[trigger] ix.can_take(ws2[i], fs2[i])
        && ws2[i + 1] == ix.target(ws2[i], fs2[i]) by {
        assert(ix.can_take(ws[i], fs[i]));
    }
}

/// The state reached along an edge carries the name of that edge, and
/// states at one node differ in their names.
proof fn lemma_target_name(ix: &Index, edges: Seq<Edge>, s: usize, e: usize)
    requires
        ix.wf(edges),
        s < ix.ns(),
        ix.can_take(s, e),
    ensures
        e < edges.len(),
        ix.target(s, e) < ix.ns(),
        ix.sname@[ix.target(s, e) as int] == ix.name@[e as int],
{
    let n = ix.snode@[s as int];
    assert(ix.snode@[s as int] < ix.nn());
    let j = choose|j: int| 0 <= j < ix.around(n).len() && ix.around(n)[j] == e;
    assert(ix.adj@[n as int]@[j] == e);
}

/// The cost of a walk is the turns of its edge names, plus the cost of its
/// first step.
proof fn lemma_cost_turns(ix: &Index, edges: Seq<Edge>, ws: Seq<usize>, fs: Seq<usize>)
    requires
        ix.wf(edges),
        ix.is_walk(ws, fs),
        fs.len() >= 1,
    ensures
        ix.cost(ws, fs) == turn_count(route_names(edges, walk_steps(fs))) + ix.weight(ws[0], fs[0]),
    decreases fs.len(),
{
    let names = route_names(edges, walk_steps(fs));
    if fs.len() == 1 {
        assert(ix.cost(ws.drop_last(), fs.drop_last()) == 0);
    } else {
        let k = fs.len() - 1;
        lemma_walk_drop_last(ix, ws, fs);
        lemma_cost_turns(ix, edges, ws.drop_last(), fs.drop_last());
        assert(route_names(edges, walk_steps(fs.drop_last())) =~= names.drop_last());
        assert(ix.can_take(ws[k - 1], fs[k - 1]));
        assert(ix.can_take(ws[k], fs[k]));
        lemma_target_name(ix, edges, ws[k - 1], fs[k - 1]);
        lemma_target_name(ix, edges, ws[k], fs[k]);
        assert(ix.sname@[ws[k] as int] == ix.name@[fs[k - 1] as int]);
        assert(names[k] == edges[fs[k] as int].edge_name@);
        assert(names[k - 1] == edges[fs[k - 1] as int].edge_name@);
        assert(ix.names@[ix.name@[fs[k] as int] as int]@ == edges[fs[k] as int].edge_name@);
        assert(ix.names@[ix.name@[fs[k - 1] as int] as int]@ == edges[fs[k - 1] as int].edge_name@);
        assert(ws.drop_last()[0] == ws[0] && fs.drop_last()[0] == fs[0]);
    }
}

/// A walk through distinct states, whose first step keeps the name of its
/// start state, traces a route that passes no state twice.
proof fn lemma_states_once(ix: &Index, edges: Seq<Edge>, ws: Seq<usize>, fs: Seq<usize>)
    requires
        ix.wf(edges),
        ix.is_walk(ws, fs),
        fs.len() >= 1,
        ix.weight(ws[0], fs[0]) == 0,
        forall|i: int, j: int| 0 <= i < j < ws.len() ==> ws[i] != ws[j],
    ensures
        passes_states_once(edges, walk_steps(fs), walk_nodes(ix, ws)),
{
    let steps = walk_steps(fs);
    let nodes = walk_nodes(ix, ws);
    let st = route_states(edges, steps, nodes);
    assert forall|i: int| 0 <= i < st.len() implies #[trigger] st[i] == (
        state_node_text(ix, ws[i]),
        state_name_text(ix, ws[i]),
    ) by {
        let f = fs[if i == 0 {
            0
        } else {
            i - 1
        }];
        assert(ix.can_take(ws[if i == 0 {
            0
        } else {
            i - 1
        }], f));
        lemma_target_name(ix, edges, ws[if i == 0 {
            0
        } else {
            i - 1
        }], f);
        assert(ix.sname@[ws[i] as int] == ix.name@[f as int]);
        assert(ix.names@[ix.name@[f as int] as int]@ == edges[f as int].edge_name@);
    }
    assert forall|i: int, j: int| 0 <= i < j < st.len() implies st[i] != st[j] by {
        assert(st[i] == (state_node_text(ix, ws[i]), state_name_text(ix, ws[i])));
        assert(st[j] == (state_node_text(ix, ws[j]), state_name_text(ix, ws[j])));
        assert(ix.snode@[ws[i] as int] < ix.nn());
        assert(ix.snode@[ws[j] as int] < ix.nn());
    }
}

/// A walk that arrives at `to` traces a route between the texts of the two
/// nodes.
proof fn lemma_walk_route(
    ix: &Index,
    edges: Seq<Edge>,
    from: usize,
    to: usize,
    ws: Seq<usize>,
    fs: Seq<usize>,
)
    requires
        ix.wf(edges),
        from < ix.nn(),
        to < ix.nn(),
        from != to,
        ix.arrives(from, to, ws, fs),
    ensures
        is_route(
            edges,
            ix.nodes@[from as int]@,
            ix.nodes@[to as int]@,
            walk_steps(fs),
            walk_nodes(ix, ws),
        ),
{
    let steps = walk_steps(fs);
    let nodes = walk_nodes(ix, ws);
    assert(fs.len() >= 1);
    assert forall|i: int| 0 <= i < steps.len() implies 0 <= #[trigger] steps[i] < edges.len()
        && links(edges[steps[i]], nodes[i], nodes[i + 1]) by {
        assert(ix.can_take(ws[i], fs[i]));
        assert(ws[i] < ix.ns());
        lemma_target_name(ix, edges, ws[i], fs[i]);
        let e = fs[i];
        let n = ix.snode@[ws[i] as int];
        assert(ix.snode@[ws[i] as int] < ix.nn());
        let j = choose|j: int| 0 <= j < ix.around(n).len() && ix.around(n)[j] == e;
        assert(ix.adj@[n as int]@[j] == e);
        assert(ix.prev@[e as int] < ix.nn());
    }
}

/// Facts on the node with text `t`, an end of edge `e`, and its state under
/// the name of `e`.
proof fn lemma_endpoint(ix: &Index, edges: Seq<Edge>, e: usize, t: Seq<char>)
    requires
        ix.wf(edges),
        e < edges.len(),
        edges[e as int].previous@ == t || edges[e as int].next@ == t,
    ensures
        ({
            let n = node_of(ix, t);
            let s = state_of(ix, n, ix.name@[e as int]);
            &&& n < ix.nn()
            &&& ix.nodes@[n as int]@ == t
            &&& (edges[e as int].previous@ == t <==> n == ix.prev@[e as int])
            &&& (edges[e as int].next@ == t <==> n == ix.next@[e as int])
            &&& s < ix.ns()
            &&& ix.snode@[s as int] == n
            &&& ix.sname@[s as int] == ix.name@[e as int]
            &&& s == if n == ix.prev@[e as int] {
                ix.sprev@[e as int]
            } else {
                ix.snext@[e as int]
            }
            &&& ix.around(n).contains(e)
        }),
{
    assert(ix.prev@[e as int] < ix.nn());
    let w: usize = if edges[e as int].previous@ == t {
        ix.prev@[e as int]
    } else {
        ix.next@[e as int]
    };
    assert(w < ix.nn() && ix.nodes@[w as int]@ == t);
    let n = node_of(ix, t);
    assert(n == w);
    let ws: usize = if n == ix.prev@[e as int] {
        ix.sprev@[e as int]
    } else {
        ix.snext@[e as int]
    };
    assert(ws < ix.ns() && ix.snode@[ws as int] == n && ix.sname@[ws as int] == ix.name@[e as int]);
    let s = state_of(ix, n, ix.name@[e as int]);
    assert(s == ws);
}

/// Every route between the texts of nodes `from` and `to` is traced by a
/// walk that arrives at `to` and costs its turns.
proof fn lemma_lift(
    ix: &Index,
    edges: Seq<Edge>,
    from: usize,
    to: usize,
    steps: Seq<int>,
    nodes: Seq<Seq<char>>,
)
    requires
        ix.wf(edges),
        from < ix.nn(),
        to < ix.nn(),
        is_route(edges, ix.nodes@[from as int]@, ix.nodes@[to as int]@, steps, nodes),
    ensures
        exists|ws: Seq<usize>, fs: Seq<usize>|
            ix.arrives(from, to, ws, fs) && ix.cost(ws, fs) == turn_count(
                route_names(edges, steps),
            ),
{
    let k = steps.len() as int;
    let fs = steps.map_values(|i: int| i as usize);
    let ws = Seq::new(
        nodes.len(),
        |i: int|
            state_of(
                ix,
                node_of(ix, nodes[i]),
                ix.name@[fs[if i == 0 {
                    0
                } else {
                    i - 1
                }] as int],
            ),
    );
    assert forall|i: int| 0 <= i < k implies {
        &&& (#[trigger] fs[i]) as int == steps[i]
        &&& fs[i] < edges.len()
        &&& edges[fs[i] as int].previous@ == nodes[i] || edges[fs[i] as int].next@ == nodes[i]
        &&& edges[fs[i] as int].previous@ == nodes[i + 1] || edges[fs[i] as int].next@ == nodes[
            i + 1
        ]
    } by {
        assert(0 <= steps[i] < edges.len());
        assert(links(edges[steps[i]], nodes[i], nodes[i + 1]));
    }
    assert(walk_steps(fs) =~= steps);
    assert forall|i: int| 0 <= i < ws.len() implies {
        &&& #[trigger] ws[i] < ix.ns()
        &&& ix.snode@[ws[i] as int] == node_of(ix, nodes[i])
        &&& ix.nodes@[node_of(ix, nodes[i]) as int]@ == nodes[i]
    } by {
        let f = fs[if i == 0 {
            0
        } else {
            i - 1
        }];
        lemma_endpoint(ix, edges, f, nodes[i]);
    }
    assert forall|i: int| 0 <= i < fs.len() implies #[trigger] ix.can_take(ws[i], fs[i]) && ws[i + 1]
        == ix.target(ws[i], fs[i]) by {
        let e = fs[i];
        lemma_endpoint(ix, edges, e, nodes[i]);
        lemma_endpoint(ix, edges, e, nodes[i + 1]);
        if i > 0 {
            lemma_endpoint(ix, edges, fs[i - 1], nodes[i]);
        }
        if ix.prev@[e as int] == ix.next@[e as int] {
            assert(ix.sprev@[e as int] == ix.snext@[e as int]);
        }
        assert(links(edges[steps[i]], nodes[i], nodes[i + 1]));
    }
    assert(ix.is_walk(ws, fs));
    let a = node_of(ix, nodes[0]);
    lemma_endpoint(ix, edges, fs[0], nodes[0]);
    assert(a == from);
    assert(ix.around(from).contains(fs[0]) && ix.name@[fs[0] as int] == ix.sname@[ws[0] as int]);
    assert(ix.is_start(from, ws[0]));
    assert(node_of(ix, nodes[k]) == to);
    assert(ix.arrives(from, to, ws, fs));
    lemma_cost_turns(ix, edges, ws, fs);
}

/// Whether `v` holds `x`.
fn holds(v: &Vec<usize>, x: usize) -> (r: bool)
    ensures
        r == v@.contains(x),
{
    let mut i: usize = 0;
    while i < v.len()
        invariant
            i <= v@.len(),
            forall|k: int| 0 <= k < i ==> v@[k] != x,
        decreases v@.len() - i,
    {
        if v[i] == x {
            return true;
        }
        i = i + 1;
    }
    false
}

/// The states a route from node `from` may begin in, one for each name of
/// an edge that touches `from`, ordered by the text of that name.
fn start_states(ix: &Index, Ghost(edges): Ghost<Seq<Edge>>, from: usize) -> (starts: Vec<usize>)
    requires
        ix.wf(edges),
        from < ix.nn(),
    ensures
        forall|i: int| 0 <= i < starts@.len() ==> ix.is_start(from, #[trigger] starts@[i]),
        forall|s: usize| #[trigger] ix.is_start(from, s) ==> starts@.contains(s),
        forall|i: int, j: int|
            0 <= i < j < starts@.len() ==> chars_before(
                state_name_text(ix, starts@[i]),
                state_name_text(ix, starts@[j]),
            ),
        starts@ == start_order(ix.graph(), texts(ix.names@), from, ix.graph().adj[from as int].len()),
{
    let ghost g = ix.graph();
    let ghost names = texts(ix.names@);
    let mut starts: Vec<usize> = Vec::new();
    let mut j: usize = 0;
    while j < ix.adj[from].len()
        invariant
            ix.wf(edges),
            from < ix.nn(),
            j <= ix.around(from).len(),
            forall|i: int| 0 <= i < starts@.len() ==> ix.is_start(from, #[trigger] starts@[i]),
            forall|i: int, k: int|
                0 <= i < k < starts@.len() ==> chars_before(
                    state_name_text(ix, starts@[i]),
                    state_name_text(ix, starts@[k]),
                ),
            forall|jj: int|
                0 <= jj < j ==> starts@.contains(
                    start_through(ix, from, #[trigger] ix.around(from)[jj]),
                ),
            g == ix.graph(),
            names == texts(ix.names@),
            starts@ == start_order(g, names, from, j as nat),
        decreases ix.around(from).len() - j,
    {
        let e = ix.adj[from][j];
        assert(ix.adj@[from as int]@[j as int] == e);
        let st = if ix.prev[e] == from {
            ix.sprev[e]
        } else {
            ix.snext[e]
        };
        assert(ix.is_start(from, st)) by {
            assert(ix.around(from).contains(e)) by {
                assert(ix.around(from)[j as int] == e);
            }
        }
        assert(ix.snode@[st as int] < ix.nn());
        if !holds(&starts, st) {
            let mut p: usize = 0;
            while p < starts.len() && text_before(
                ix.names[ix.sname[starts[p]]].as_str(),
                ix.names[ix.sname[st]].as_str(),
            )
                invariant
                    ix.wf(edges),
                    p <= starts@.len(),
                    st < ix.ns(),
                    ix.sname@[st as int] < ix.names@.len(),
                    forall|i: int| 0 <= i < starts@.len() ==> ix.is_start(from, #[trigger] starts@[i]),
                    forall|i: int|
                        0 <= i < p ==> chars_before(
                            state_name_text(ix, #[trigger] starts@[i]),
                            state_name_text(ix, st),
                        ),
                decreases starts@.len() - p,
            {
                p = p + 1;
            }
            let ghost before = starts@;
            proof {
                assert forall|i: int| 0 <= i < p implies name_before(g, names, st)(#[trigger] before[i]) by {
                    assert(chars_before(state_name_text(ix, before[i]), state_name_text(ix, st)));
                }
                if p < before.len() {
                    assert(!chars_before(state_name_text(ix, before[p as int]), state_name_text(ix, st)));
                }
                lemma_insert_before_first(before, st, name_before(g, names, st), p as int);
            }
            starts.insert(p, st);
            proof {
                let tst = state_name_text(ix, st);
                assert(forall|i: int|
                    0 <= i < before.len() ==> state_name_text(ix, #[trigger] before[i]) != tst) by {
                    assert forall|i: int| 0 <= i < before.len() implies state_name_text(
                        ix,
                        #[trigger] before[i],
                    ) != tst by {
                        assert(ix.is_start(from, before[i]));
                        assert(before[i] != st);
                        assert(ix.sname@[before[i] as int] != ix.sname@[st as int]);
                    }
                }
                if p < before.len() {
                    lemma_before_total(tst, state_name_text(ix, before[p as int]));
                }
                assert forall|i: int, k: int|
                    0 <= i < k < starts@.len() implies chars_before(
                    state_name_text(ix, starts@[i]),
                    state_name_text(ix, starts@[k]),
                ) by {
                    if k < p {
                    } else if k == p {
                        assert(starts@[i] == before[i]);
                    } else if i < p {
                        assert(starts@[i] == before[i]);
                        assert(starts@[k] == before[k - 1]);
                    } else if i == p {
                        assert(starts@[k] == before[k - 1]);
                        if k - 1 > p {
                            lemma_before_trans(
                                tst,
                                state_name_text(ix, before[p as int]),
                                state_name_text(ix, before[k - 1]),
                            );
                        }
                    } else {
                        assert(starts@[i] == before[i - 1]);
                        assert(starts@[k] == before[k - 1]);
                    }
                }
                assert forall|i: int| 0 <= i < starts@.len() implies ix.is_start(
                    from,
                    #[trigger] starts@[i],
                ) by {
                    if i < p {
                        assert(starts@[i] == before[i]);
                    } else if i > p {
                        assert(starts@[i] == before[i - 1]);
                    }
                }
                assert(starts@[p as int] == st);
                assert forall|x: usize| before.contains(x) implies starts@.contains(x) by {
                    let i = choose|i: int| 0 <= i < before.len() && before[i] == x;
                    if i < p {
                        assert(starts@[i] == x);
                    } else {
                        assert(starts@[i + 1] == x);
                    }
                }
            }
        }
        assert forall|jj: int| 0 <= jj < j + 1 implies starts@.contains(
            start_through(ix, from, #[trigger] ix.around(from)[jj]),
        ) by {
            if jj == j {
                assert(ix.around(from)[jj] == e);
                assert(starts@.contains(st));
            }
        }
        j = j + 1;
    }
    assert forall|s: usize| #[trigger] ix.is_start(from, s) implies starts@.contains(s) by {
        let e = choose|e: usize| #[trigger]
            ix.around(from).contains(e) && ix.name@[e as int] == ix.sname@[s as int];
        let jj = choose|jj: int| 0 <= jj < ix.around(from).len() && ix.around(from)[jj] == e;
        let st = start_through(ix, from, ix.around(from)[jj]);
        assert(starts@.contains(st));
        assert(ix.adj@[from as int]@[jj] == e);
        assert(st == s);
    }
    starts
}

/// The tasks of the route that walk `ws`, `fs` traces.
fn tasks_of(edges: &[Edge], ix: &Index, ws: &Vec<usize>, fs: &Vec<usize>) -> (tasks: Vec<
    TaskSegment,
>)
    requires
        ix.wf(edges@),
        ix.is_walk(ws@, fs@),
    ensures
        segment_views(tasks@) == segments(
            route_names(edges@, walk_steps(fs@)),
            walk_nodes(ix, ws@),
        ),
{
    let ghost names = route_names(edges@, walk_steps(fs@));
    let ghost nodes = walk_nodes(ix, ws@);
    let mut tasks: Vec<TaskSegment> = Vec::new();
    let mut i: usize = 0;
    assert(names.take(0) =~= Seq::<Seq<char>>::empty());
    while i < fs.len()
        invariant
            ix.wf(edges@),
            ix.is_walk(ws@, fs@),
            names == route_names(edges@, walk_steps(fs@)),
            nodes == walk_nodes(ix, ws@),
            i <= fs@.len(),
            segment_views(tasks@) == segments(names.take(i as int), nodes.take(i + 1)),
        decreases fs@.len() - i,
    {
        assert(ix.can_take(ws@[i as int], fs@[i as int]));
        proof {
            lemma_target_name(ix, edges@, ws@[i as int], fs@[i as int]);
        }
        assert(ws@[i as int] < ix.ns() && ws@[i + 1] < ix.ns());
        assert(ix.snode@[ws@[i as int] as int] < ix.nn());
        assert(ix.snode@[ws@[i + 1] as int] < ix.nn());
        let enter = ix.nodes[ix.snode[ws[i]]].clone();
        let exit = ix.nodes[ix.snode[ws[i + 1]]].clone();
        let edge_name = edges[fs[i]].edge_name.clone();
        let ghost before = tasks@;
        let ghost names1 = names.take(i + 1);
        let ghost nodes1 = nodes.take(i + 2);
        assert(names1.drop_last() =~= names.take(i as int));
        assert(nodes1.drop_last() =~= nodes.take(i + 1));
        assert(names1[i as int] == edge_name@);
        assert(nodes1[i as int] == enter@);
        assert(nodes1[i + 1] == exit@);
        let n = tasks.len();
        if n > 0 && tasks[n - 1].edge_name == edge_name {
            let mut last = tasks.pop().unwrap();
            let ghost seq0 = last.sequence@;
            last.sequence.push(exit);
            tasks.push(last);
            assert(texts(seq0.push(exit)) =~= texts(seq0).push(exit@));
            assert(segment_views(tasks@) =~= segment_views(before).update(
                n - 1,
                Segment {
                    name: segment_views(before).last().name,
                    nodes: segment_views(before).last().nodes.push(exit@),
                },
            ));
        } else {
            let mut sequence: Vec<String> = Vec::new();
            sequence.push(enter);
            sequence.push(exit);
            assert(texts(sequence@) =~= seq![enter@, exit@]);
            tasks.push(TaskSegment { edge_name, sequence });
            assert(segment_views(tasks@) =~= segment_views(before).push(
                Segment { name: edge_name@, nodes: seq![enter@, exit@] },
            ));
        }
        i = i + 1;
    }
    assert(names.take(fs@.len() as int) =~= names);
    assert(nodes.take(fs@.len() as int + 1) =~= nodes);
    tasks
}

/// No route leads from or to a text that is no end of any edge.
proof fn lemma_route_ends(edges: Seq<Edge>, from: Seq<char>, to: Seq<char>, steps: Seq<int>, nodes: Seq<Seq<char>>)
    requires
        is_route(edges, from, to, steps, nodes),
    ensures
        0 <= steps[0] < edges.len(),
        edges[steps[0]].previous@ == from || edges[steps[0]].next@ == from,
        0 <= steps[steps.len() - 1] < edges.len(),
        edges[steps[steps.len() - 1]].previous@ == to || edges[steps[steps.len() - 1]].next@ == to,
{
    let k = steps.len() - 1;
    assert(links(edges[steps[0]], nodes[0], nodes[1]));
    assert(links(edges[steps[k]], nodes[k], nodes[k + 1]));
}

/// The answer of the search over the numbering of `edges`: no task when
/// `from` and `to` are the same; `None` when either is no end of an edge;
/// otherwise the route that the search from the start states of `from`
/// (ordered by name) finds at `to`, its edges tried around each node in
/// `edge_id` order, cut into tasks, or `None` when it finds none.
pub open spec fn search_answer(edges: Seq<Edge>, from: Seq<char>, to: Seq<char>) -> Option<PathView> {
    let k = edges.len() as nat;
    let nodes = node_table(edges, k);
    if from == to {
        Some(PathView { turns: 0, tasks: Seq::empty() })
    } else if !nodes.contains(from) || !nodes.contains(to) {
        None
    } else {
        let g = graph_of(edges);
        let f = text_id(nodes, from);
        let starts = start_order(g, name_table(edges, k), f, g.adj[f as int].len());
        let out = outcome(g, text_id(nodes, to), init_run(g.snode.len(), starts));
        match out.found {
            None => None,
            Some(s) => {
                let (ws, fs) = trace(out.prior, s, g.snode.len());
                Some(
                    PathView {
                        turns: out.dist[s as int].unwrap() as nat,
                        tasks: segments(
                            route_names(edges, walk_steps(fs)),
                            ws.map_values(|w: usize| nodes[g.snode[w as int] as int]),
                        ),
                    },
                )
            },
        }
    }
}

/// Finds one route from `from` to `to` with the fewest turns (changes of
/// `edge_name`), edges being taken in either direction, and cuts it into
/// tasks.  When `from` and `to` are the same, the answer is no turn and no
/// task; when no route exists, `None`.  Among routes with equally few
/// turns, the one returned is fixed by `search_answer`: the start names are
/// tried in text order and each node's edges in `edge_id` order (equal ids
/// in the order of `edges`).
pub fn find_path(edges: &[Edge], from: &str, to: &str) -> (r: Option<FoundPath>)
    ensures
        answers(edges@, from@, to@, path_view(r)),
        path_view(r) == search_answer(edges@, from@, to@),
{
    let from_text = from.to_owned();
    let to_text = to.to_owned();
    if from_text == to_text {
        let r = FoundPath { turns: 0, tasks: Vec::new() };
        assert(segment_views(r.tasks@) =~= Seq::<Segment>::empty());
        return Some(r);
    }
    let ix = Index::build(edges);
    let ghost nodes = node_table(edges@, edges@.len() as nat);
    proof {
        assert(ix.nodes@.len() == ix.nodes.len());
        assert forall|a: int, b: int|
            0 <= a < nodes.len() && 0 <= b < nodes.len() && a != b implies nodes[a] != nodes[b] by {
            assert(nodes[a] == ix.nodes@[a]@ && nodes[b] == ix.nodes@[b]@);
        }
    }
    let from_id = match position_of(&ix.nodes, &from_text) {
        Some(i) => i,
        None => {
            proof {
                assert(!nodes.contains(from@)) by {
                    if nodes.contains(from@) {
                        let j = choose|j: int| 0 <= j < nodes.len() && nodes[j] == from@;
                        assert(ix.nodes@[j]@ == from@);
                    }
                }
                assert forall|steps: Seq<int>, nodes: Seq<Seq<char>>|
                    !is_route(edges@, from@, to@, steps, nodes) by {
                    if is_route(edges@, from@, to@, steps, nodes) {
                        lemma_route_ends(edges@, from@, to@, steps, nodes);
                        assert(ix.prev@[steps[0]] < ix.nn());
                    }
                }
            }
            return None;
        },
    };
    let to_id = match position_of(&ix.nodes, &to_text) {
        Some(i) => i,
        None => {
            proof {
                assert(!nodes.contains(to@)) by {
                    if nodes.contains(to@) {
                        let j = choose|j: int| 0 <= j < nodes.len() && nodes[j] == to@;
                        assert(ix.nodes@[j]@ == to@);
                    }
                }
                assert forall|steps: Seq<int>, nodes: Seq<Seq<char>>|
                    !is_route(edges@, from@, to@, steps, nodes) by {
                    if is_route(edges@, from@, to@, steps, nodes) {
                        lemma_route_ends(edges@, from@, to@, steps, nodes);
                        assert(ix.prev@[steps[steps.len() - 1]] < ix.nn());
                    }
                }
            }
            return None;
        },
    };
    assert(from_id != to_id);
    proof {
        assert(nodes[from_id as int] == from@);
        assert(nodes[to_id as int] == to@);
        lemma_text_id(nodes, from@, from_id as int);
        lemma_text_id(nodes, to@, to_id as int);
    }
    let starts = start_states(&ix, Ghost(edges@), from_id);
    match search(&ix, Ghost(edges@), from_id, to_id, &starts) {
        None => {
            proof {
                assert forall|steps: Seq<int>, nodes: Seq<Seq<char>>|
                    !is_route(edges@, from@, to@, steps, nodes) by {
                    if is_route(edges@, from@, to@, steps, nodes) {
                        lemma_lift(&ix, edges@, from_id, to_id, steps, nodes);
                    }
                }
                assert(!reachable(edges@, from@, to@));
            }
            None
        },
        Some((turns, ws, fs)) => {
            let tasks = tasks_of(edges, &ix, &ws, &fs);
            let r = FoundPath { turns, tasks };
            proof {
                let steps = walk_steps(fs@);
                let nodes = walk_nodes(&ix, ws@);
                lemma_walk_route(&ix, edges@, from_id, to_id, ws@, fs@);
                lemma_cost_turns(&ix, edges@, ws@, fs@);
                assert forall|steps2: Seq<int>, nodes2: Seq<Seq<char>>| #[trigger]
                    is_route(edges@, from@, to@, steps2, nodes2) implies turns <= turn_count(
                    route_names(edges@, steps2),
                ) by {
                    lemma_lift(&ix, edges@, from_id, to_id, steps2, nodes2);
                    let (ws2, fs2) = choose|ws2: Seq<usize>, fs2: Seq<usize>|
                        ix.arrives(from_id, to_id, ws2, fs2) && ix.cost(ws2, fs2) == turn_count(
                            route_names(edges@, steps2),
                        );
                    assert(ix.arrives(from_id, to_id, ws2, fs2));
                }
                assert(is_route(edges@, from@, to@, steps, nodes));
                assert(turns <= turn_count(route_names(edges@, steps)));
                lemma_states_once(&ix, edges@, ws@, fs@);
                assert(describes(r@, edges@, steps, nodes));
                let g = ix.graph();
                assert(walk_nodes(&ix, ws@) =~= ws@.map_values(
                    |w: usize| node_table(edges@, edges@.len() as nat)[g.snode[w as int] as int],
                ));
            }
            Some(r)
        },
    }
}

} // verus!
