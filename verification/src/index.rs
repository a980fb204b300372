//! The graph numbered: nodes, edge names and search states get small
//! integer ids, and each node lists the edges that touch it.
//!
//! A search state is a node together with the name of the edge that led to
//! it (or, at the start, the name the route begins on).
use vstd::prelude::*;

use crate::graph::{texts, Edge};
use crate::steps::Graph;

verus! {

/// `t` with `s` added at the end, unless `t` holds it already.
pub open spec fn with_text(t: Seq<Seq<char>>, s: Seq<char>) -> Seq<Seq<char>> {
    if t.contains(s) {
        t
    } else {
        t.push(s)
    }
}

/// The node texts of the first `k` edges, each once, in the order in which
/// they first occur (of each edge, `previous` before `next`).
pub open spec fn node_table(edges: Seq<Edge>, k: nat) -> Seq<Seq<char>>
    decreases k,
{
    if k == 0 {
        Seq::empty()
    } else {
        let t = node_table(edges, (k - 1) as nat);
        with_text(with_text(t, edges[k - 1].previous@), edges[k - 1].next@)
    }
}

/// The edge names of the first `k` edges, each once, in the order in which
/// they first occur.
pub open spec fn name_table(edges: Seq<Edge>, k: nat) -> Seq<Seq<char>>
    decreases k,
{
    if k == 0 {
        Seq::empty()
    } else {
        with_text(name_table(edges, (k - 1) as nat), edges[k - 1].edge_name@)
    }
}

/// The position of `s` in `t`.
pub open spec fn text_id(t: Seq<Seq<char>>, s: Seq<char>) -> usize {
    (choose|i: int| 0 <= i < t.len() && t[i] == s) as usize
}

/// `t` with `x` added at the end, unless `t` holds it already.
pub open spec fn with_state(t: Seq<(usize, usize)>, x: (usize, usize)) -> Seq<(usize, usize)> {
    if t.contains(x) {
        t
    } else {
        t.push(x)
    }
}

/// The states (node id, name id) of the first `k` edges, each once, in the
/// order in which they first occur (of each edge, the one at `previous`
/// before the one at `next`).
pub open spec fn state_table(edges: Seq<Edge>, k: nat) -> Seq<(usize, usize)>
    decreases k,
{
    if k == 0 {
        Seq::empty()
    } else {
        let t = state_table(edges, (k - 1) as nat);
        let nodes = node_table(edges, k);
        let m = text_id(name_table(edges, k), edges[k - 1].edge_name@);
        with_state(
            with_state(t, (text_id(nodes, edges[k - 1].previous@), m)),
            (text_id(nodes, edges[k - 1].next@), m),
        )
    }
}

/// The position of `x` in `t`.
pub open spec fn state_id(t: Seq<(usize, usize)>, x: (usize, usize)) -> usize {
    (choose|i: int| 0 <= i < t.len() && t[i] == x) as usize
}

/// The pairs of `a` and `b`, position by position.
pub open spec fn pairs(a: Seq<usize>, b: Seq<usize>) -> Seq<(usize, usize)> {
    Seq::new(a.len(), |i: int| (a[i], b[i]))
}

/// `list` with `x` put just before its first element that `goes_before`
/// rejects, or at the end.
pub open spec fn insert_before_first(
    list: Seq<usize>,
    x: usize,
    goes_before: spec_fn(usize) -> bool,
) -> Seq<usize>
    decreases list.len(),
{
    if list.len() == 0 {
        seq![x]
    } else if goes_before(list[0]) {
        seq![list[0]] + insert_before_first(list.drop_first(), x, goes_before)
    } else {
        seq![x] + list
    }
}

/// Whether an edge's `edge_id` is no larger than that of edge `e`.
pub open spec fn id_not_after(edges: Seq<Edge>, e: usize) -> spec_fn(usize) -> bool {
    |f: usize| edges[f as int].edge_id <= edges[e as int].edge_id
}

/// The edges among the first `k` that touch node `n`, sorted by `edge_id`
/// with ties in the order of `edges`; an edge from `n` to itself twice.
pub open spec fn around_of(
    edges: Seq<Edge>,
    prev: Seq<usize>,
    next: Seq<usize>,
    n: usize,
    k: nat,
) -> Seq<usize>
    decreases k,
{
    if k == 0 {
        Seq::empty()
    } else {
        let e = (k - 1) as usize;
        let l0 = around_of(edges, prev, next, n, (k - 1) as nat);
        let l1 = if prev[k - 1] == n {
            insert_before_first(l0, e, id_not_after(edges, e))
        } else {
            l0
        };
        if next[k - 1] == n {
            insert_before_first(l1, e, id_not_after(edges, e))
        } else {
            l1
        }
    }
}

/// The numbering of `edges`: nodes, names and states numbered in the order
/// in which they first occur, each node's edges sorted by `edge_id`.
pub open spec fn graph_of(edges: Seq<Edge>) -> Graph {
    let k = edges.len();
    let nodes = node_table(edges, k);
    let names = name_table(edges, k);
    let states = state_table(edges, k);
    let prev = Seq::new(k, |e: int| text_id(nodes, edges[e].previous@));
    let next = Seq::new(k, |e: int| text_id(nodes, edges[e].next@));
    let name = Seq::new(k, |e: int| text_id(names, edges[e].edge_name@));
    Graph {
        prev,
        next,
        name,
        adj: Seq::new(nodes.len(), |n: int| around_of(edges, prev, next, n as usize, k)),
        snode: states.map_values(|x: (usize, usize)| x.0),
        sname: states.map_values(|x: (usize, usize)| x.1),
        sprev: Seq::new(k, |e: int| state_id(states, (prev[e], name[e]))),
        snext: Seq::new(k, |e: int| state_id(states, (next[e], name[e]))),
    }
}

/// In a table without repeats, the position of a text is where it stands.
pub proof fn lemma_text_id(t: Seq<Seq<char>>, s: Seq<char>, i: int)
    requires
        0 <= i < t.len(),
        t.len() <= usize::MAX,
        t[i] == s,
        forall|a: int, b: int| 0 <= a < t.len() && 0 <= b < t.len() && a != b ==> t[a] != t[b],
    ensures
        text_id(t, s) == i,
{
    let c = choose|c: int| 0 <= c < t.len() && t[c] == s;
    assert(0 <= c < t.len() && t[c] == s);
    assert(c == i);
}

/// In a table without repeats, the position of a state is where it stands.
proof fn lemma_state_id(t: Seq<(usize, usize)>, x: (usize, usize), i: int)
    requires
        0 <= i < t.len(),
        t.len() <= usize::MAX,
        t[i] == x,
        forall|a: int, b: int| 0 <= a < t.len() && 0 <= b < t.len() && a != b ==> t[a] != t[b],
    ensures
        state_id(t, x) == i,
{
    let c = choose|c: int| 0 <= c < t.len() && t[c] == x;
    assert(0 <= c < t.len() && t[c] == x);
    assert(c == i);
}

/// Inserting before the first element that `goes_before` rejects, found at
/// `p`, is inserting at `p`.
pub proof fn lemma_insert_before_first(
    list: Seq<usize>,
    x: usize,
    goes_before: spec_fn(usize) -> bool,
    p: int,
)
    requires
        0 <= p <= list.len(),
        forall|j: int| 0 <= j < p ==> goes_before(#[trigger] list[j]),
        p < list.len() ==> !goes_before(list[p]),
    ensures
        insert_before_first(list, x, goes_before) == list.insert(p, x),
    decreases list.len(),
{
    if list.len() == 0 {
        assert(list.insert(p, x) =~= seq![x]);
    } else if p == 0 {
        assert(list.insert(0, x) =~= seq![x] + list);
    } else {
        assert(goes_before(list[0]));
        let rest = list.drop_first();
        assert forall|j: int| 0 <= j < p - 1 implies goes_before(#[trigger] rest[j]) by {
            assert(rest[j] == list[j + 1]);
        }
        lemma_insert_before_first(rest, x, goes_before, p - 1);
        assert(list.insert(p, x) =~= seq![list[0]] + rest.insert(p - 1, x));
    }
}

/// No two strings of `v` have the same text.
pub open spec fn distinct_texts(v: Seq<String>) -> bool {
    forall|i: int, j: int| 0 <= i < v.len() && 0 <= j < v.len() && i != j ==> v[i]@ != v[j]@
}

/// The numbered graph.
pub struct Index {
    /// Node names, each once.
    pub nodes: Vec<String>,
    /// Edge names, each once.
    pub names: Vec<String>,
    /// For each edge: the id of its `previous` node.
    pub prev: Vec<usize>,
    /// For each edge: the id of its `next` node.
    pub next: Vec<usize>,
    /// For each edge: the id of its name.
    pub name: Vec<usize>,
    /// For each node: the edges that touch it, ordered by `edge_id`; an edge
    /// from a node to itself is listed twice.
    pub adj: Vec<Vec<usize>>,
    /// For each state: its node.
    pub snode: Vec<usize>,
    /// For each state: its edge name.
    pub sname: Vec<usize>,
    /// For each edge: the state at its `previous` end, under its name.
    pub sprev: Vec<usize>,
    /// For each edge: the state at its `next` end, under its name.
    pub snext: Vec<usize>,
}

impl Index {
    /// The numbering as values.
    pub open spec fn graph(&self) -> Graph {
        Graph {
            prev: self.prev@,
            next: self.next@,
            name: self.name@,
            adj: self.adj@.map_values(|v: Vec<usize>| v@),
            snode: self.snode@,
            sname: self.sname@,
            sprev: self.sprev@,
            snext: self.snext@,
        }
    }

    /// Number of edges.
    pub open spec fn ne(&self) -> int {
        self.prev@.len() as int
    }

    /// Number of nodes.
    pub open spec fn nn(&self) -> int {
        self.nodes@.len() as int
    }

    /// Number of states.
    pub open spec fn ns(&self) -> int {
        self.snode@.len() as int
    }

    /// The edges that touch node `n`.
    pub open spec fn around(&self, n: usize) -> Seq<usize> {
        self.adj@[n as int]@
    }

    /// Edge `e` may be taken from state `s`.
    pub open spec fn can_take(&self, s: usize, e: usize) -> bool {
        self.around(self.snode@[s as int]).contains(e)
    }

    /// The state reached from state `s` along edge `e`: the other end of
    /// `e`, under the name of `e`.
    pub open spec fn target(&self, s: usize, e: usize) -> usize {
        if self.prev@[e as int] == self.snode@[s as int] {
            self.snext@[e as int]
        } else {
            self.sprev@[e as int]
        }
    }

    /// 1 when taking `e` from `s` changes the edge name, else 0.
    pub open spec fn weight(&self, s: usize, e: usize) -> int {
        if self.name@[e as int] == self.sname@[s as int] {
            0
        } else {
            1
        }
    }

    /// `s` is a state a route from node `from` may begin in: at `from`,
    /// under the name of an edge that touches `from`.
    pub open spec fn is_start(&self, from: usize, s: usize) -> bool {
        &&& s < self.ns()
        &&& self.snode@[s as int] == from
        &&& exists|e: usize| #[trigger]
            self.around(from).contains(e) && self.name@[e as int] == self.sname@[s as int]
    }

    /// `ws` is a sequence of states, each reached from the one before along
    /// the edge of `fs` at the same position.
    pub open spec fn is_walk(&self, ws: Seq<usize>, fs: Seq<usize>) -> bool {
        &&& ws.len() == fs.len() + 1
        &&& forall|i: int| 0 <= i < ws.len() ==> #[trigger] ws[i] < self.ns()
        &&& forall|i: int|
            0 <= i < fs.len() ==> #[trigger] self.can_take(ws[i], fs[i]) && ws[i + 1] == self.target(
                ws[i],
                fs[i],
            )
    }

    /// The changes of edge name along a walk.
    pub open spec fn cost(&self, ws: Seq<usize>, fs: Seq<usize>) -> int
        decreases fs.len(),
    {
        if fs.len() == 0 {
            0
        } else {
            self.cost(ws.drop_last(), fs.drop_last()) + self.weight(
                ws[fs.len() - 1],
                fs[fs.len() - 1],
            )
        }
    }

    /// A walk that begins in a start state of `from` and ends at node `to`.
    pub open spec fn arrives(&self, from: usize, to: usize, ws: Seq<usize>, fs: Seq<usize>) -> bool {
        &&& self.is_walk(ws, fs)
        &&& self.is_start(from, ws[0])
        &&& self.snode@[ws.last() as int] == to
    }

    /// The numbering describes `edges`.
    pub open spec fn wf(&self, edges: Seq<Edge>) -> bool {
        &&& self.prev@.len() == edges.len()
        &&& self.next@.len() == edges.len()
        &&& self.name@.len() == edges.len()
        &&& self.sprev@.len() == edges.len()
        &&& self.snext@.len() == edges.len()
        &&& distinct_texts(self.nodes@)
        &&& distinct_texts(self.names@)
        &&& forall|e: int|
            0 <= e < edges.len() ==> {
                &&& #[trigger] self.prev@[e] < self.nn()
                &&& self.next@[e] < self.nn()
                &&& self.name@[e] < self.names@.len()
                &&& self.nodes@[self.prev@[e] as int]@ == edges[e].previous@
                &&& self.nodes@[self.next@[e] as int]@ == edges[e].next@
                &&& self.names@[self.name@[e] as int]@ == edges[e].edge_name@
                &&& self.sprev@[e] < self.ns()
                &&& self.snext@[e] < self.ns()
                &&& self.snode@[self.sprev@[e] as int] == self.prev@[e]
                &&& self.sname@[self.sprev@[e] as int] == self.name@[e]
                &&& self.snode@[self.snext@[e] as int] == self.next@[e]
                &&& self.sname@[self.snext@[e] as int] == self.name@[e]
                &&& self.around(self.prev@[e]).contains(e as usize)
                &&& self.around(self.next@[e]).contains(e as usize)
            }
        &&& self.adj@.len() == self.nn()
        &&& forall|n: int, j: int|
            0 <= n < self.nn() && 0 <= j < self.adj@[n]@.len() ==> {
                let e = #[trigger] self.adj@[n]@[j];
                &&& e < edges.len()
                &&& (self.prev@[e as int] == n || self.next@[e as int] == n)
            }
        &&& self.sname@.len() == self.ns()
        &&& self.ns() <= usize::MAX
        &&& edges.len() <= usize::MAX
        &&& forall|s: int|
            0 <= s < self.ns() ==> #[trigger] self.snode@[s] < self.nn() && self.sname@[s]
                < self.names@.len()
        &&& forall|s: int, t: int|
            0 <= s < self.ns() && 0 <= t < self.ns() && s != t ==> #[trigger] self.snode@[s]
                != #[trigger] self.snode@[t] || self.sname@[s] != self.sname@[t]
    }
}

/// The position of `s` in `table`, if its text is there.
pub fn position_of(table: &Vec<String>, s: &String) -> (r: Option<usize>)
    ensures
        match r {
            Some(i) => i < table@.len() && table@[i as int]@ == s@,
            None => forall|i: int| 0 <= i < table@.len() ==> table@[i]@ != s@,
        },
{
    let mut i: usize = 0;
    while i < table.len()
        invariant
            i <= table@.len(),
            forall|j: int| 0 <= j < i ==> table@[j]@ != s@,
        decreases table@.len() - i,
    {
        if table[i] == *s {
            return Some(i);
        }
        i = i + 1;
    }
    None
}

/// The id of the text of `s` in `table`, added at the end when new.
fn intern(table: &mut Vec<String>, s: &String) -> (id: usize)
    requires
        distinct_texts(old(table)@),
    ensures
        distinct_texts(final(table)@),
        id < final(table)@.len(),
        final(table)@[id as int]@ == s@,
        old(table)@.len() <= final(table)@.len() <= old(table)@.len() + 1,
        forall|i: int| 0 <= i < old(table)@.len() ==> final(table)@[i] == old(table)@[i],
        texts(final(table)@) == with_text(texts(old(table)@), s@),
{
    match position_of(table, s) {
        Some(i) => {
            assert(texts(table@)[i as int] == s@);
            i
        },
        None => {
            let ghost before = table@;
            table.push(s.clone());
            proof {
                assert(!texts(before).contains(s@)) by {
                    if texts(before).contains(s@) {
                        let j = choose|j: int| 0 <= j < texts(before).len() && texts(before)[j] == s@;
                        assert(before[j]@ == s@);
                    }
                }
                assert(texts(table@) =~= texts(before).push(s@));
            }
            table.len() - 1
        },
    }
}

/// The id of the state (`n`, `m`), added at the end when new.
fn intern_state(snode: &mut Vec<usize>, sname: &mut Vec<usize>, n: usize, m: usize) -> (id: usize)
    requires
        old(snode)@.len() == old(sname)@.len(),
        forall|s: int, t: int|
            0 <= s < old(snode)@.len() && 0 <= t < old(snode)@.len() && s != t
                ==> #[trigger] old(snode)@[s] != #[trigger] old(snode)@[t] || old(sname)@[s]
                != old(sname)@[t],
    ensures
        final(snode)@.len() == final(sname)@.len(),
        forall|s: int, t: int|
            0 <= s < final(snode)@.len() && 0 <= t < final(snode)@.len() && s != t
                ==> #[trigger] final(snode)@[s] != #[trigger] final(snode)@[t] || final(sname)@[s]
                != final(sname)@[t],
        id < final(snode)@.len(),
        final(snode)@[id as int] == n,
        final(sname)@[id as int] == m,
        final(snode)@ == old(snode)@ || final(snode)@ == old(snode)@.push(n),
        final(snode)@ == old(snode)@ ==> final(sname)@ == old(sname)@,
        final(snode)@ == old(snode)@.push(n) ==> final(sname)@ == old(sname)@.push(m),
        pairs(final(snode)@, final(sname)@) == with_state(pairs(old(snode)@, old(sname)@), (n, m)),
{
    let mut i: usize = 0;
    while i < snode.len()
        invariant
            i <= snode@.len(),
            snode@.len() == sname@.len(),
            snode@ == old(snode)@,
            sname@ == old(sname)@,
            forall|s: int, t: int|
                0 <= s < snode@.len() && 0 <= t < snode@.len() && s != t
                    ==> #[trigger] snode@[s] != #[trigger] snode@[t] || sname@[s] != sname@[t],
            forall|j: int| 0 <= j < i ==> snode@[j] != n || sname@[j] != m,
        decreases snode@.len() - i,
    {
        if snode[i] == n && sname[i] == m {
            assert(pairs(snode@, sname@)[i as int] == (n, m));
            return i;
        }
        i = i + 1;
    }
    let ghost t0 = pairs(snode@, sname@);
    assert(!t0.contains((n, m))) by {
        if t0.contains((n, m)) {
            let j = choose|j: int| 0 <= j < t0.len() && t0[j] == (n, m);
            assert(snode@[j] == n && sname@[j] == m);
        }
    }
    snode.push(n);
    sname.push(m);
    assert(pairs(snode@, sname@) =~= t0.push((n, m)));
    snode.len() - 1
}

/// Adds edge `e` to `list`, after every edge whose `edge_id` is not larger.
fn insert_by_id(list: &mut Vec<usize>, e: usize, edges: &[Edge])
    requires
        e < edges@.len(),
        forall|j: int| 0 <= j < old(list)@.len() ==> #[trigger] old(list)@[j] < edges@.len(),
        forall|i: int, j: int|
            0 <= i < j < old(list)@.len() ==> edges@[old(list)@[i] as int].edge_id
                <= edges@[old(list)@[j] as int].edge_id,
    ensures
        forall|j: int| 0 <= j < final(list)@.len() ==> #[trigger] final(list)@[j] < edges@.len(),
        forall|i: int, j: int|
            0 <= i < j < final(list)@.len() ==> edges@[final(list)@[i] as int].edge_id
                <= edges@[final(list)@[j] as int].edge_id,
        exists|p: int| 0 <= p <= old(list)@.len() && final(list)@ == old(list)@.insert(p, e),
        final(list)@ == insert_before_first(old(list)@, e, id_not_after(edges@, e)),
{
    let key = edges[e].edge_id;
    let mut p: usize = 0;
    while p < list.len() && edges[list[p]].edge_id <= key
        invariant
            p <= list@.len(),
            forall|j: int| 0 <= j < list@.len() ==> #[trigger] list@[j] < edges@.len(),
            forall|j: int| 0 <= j < p ==> edges@[list@[j] as int].edge_id <= key,
        decreases list@.len() - p,
    {
        p = p + 1;
    }
    let ghost before = list@;
    proof {
        lemma_insert_before_first(before, e, id_not_after(edges@, e), p as int);
    }
    list.insert(p, e);
    assert forall|i: int, j: int|
        0 <= i < j < list@.len() implies edges@[list@[i] as int].edge_id
        <= edges@[list@[j] as int].edge_id by {
        if j < p {
        } else if j == p {
        } else if i < p {
            assert(list@[j] == before[j - 1]);
        } else if i == p {
            assert(list@[j] == before[j - 1]);
            assert(edges@[before[p as int] as int].edge_id > key);
            assert(edges@[before[p as int] as int].edge_id <= edges@[before[j - 1] as int].edge_id);
        } else {
            assert(list@[j] == before[j - 1]);
            assert(list@[i] == before[i - 1]);
        }
    }
}

/// Inserting `e` into a list keeps what the list held and adds `e`.
proof fn lemma_insert_keeps(before: Seq<usize>, after: Seq<usize>, e: usize)
    requires
        exists|p: int| 0 <= p <= before.len() && after == before.insert(p, e),
    ensures
        after.contains(e),
        forall|x: usize| before.contains(x) ==> after.contains(x),
{
    let p = choose|p: int| 0 <= p <= before.len() && after == before.insert(p, e);
    assert(after[p] == e);
    assert forall|x: usize| before.contains(x) implies after.contains(x) by {
        let k = choose|k: int| 0 <= k < before.len() && before[k] == x;
        if k < p {
            assert(after[k] == x);
        } else {
            assert(after[k + 1] == x);
        }
    }
}

/// The edges that touch node `n`, ordered by `edge_id`, an edge from `n` to
/// itself twice, each group of equal `edge_id` in the order of `edges`.
fn edges_around(n: usize, prev: &Vec<usize>, next: &Vec<usize>, edges: &[Edge]) -> (list: Vec<
    usize,
>)
    requires
        prev@.len() == edges@.len(),
        next@.len() == edges@.len(),
    ensures
        forall|j: int|
            0 <= j < list@.len() ==> #[trigger] list@[j] < edges@.len() && (prev@[list@[j] as int]
                == n || next@[list@[j] as int] == n),
        forall|e: usize|
            e < edges@.len() && (prev@[e as int] == n || next@[e as int] == n) ==> list@.contains(e),
        list@ == around_of(edges@, prev@, next@, n, edges@.len() as nat),
{
    let mut list: Vec<usize> = Vec::new();
    let mut e: usize = 0;
    while e < edges.len()
        invariant
            e <= edges@.len(),
            prev@.len() == edges@.len(),
            next@.len() == edges@.len(),
            forall|j: int|
                0 <= j < list@.len() ==> #[trigger] list@[j] < edges@.len() && (prev@[list@[j] as int]
                    == n || next@[list@[j] as int] == n),
            forall|i: int, j: int|
                0 <= i < j < list@.len() ==> edges@[list@[i] as int].edge_id
                    <= edges@[list@[j] as int].edge_id,
            forall|f: usize|
                f < e && (prev@[f as int] == n || next@[f as int] == n) ==> list@.contains(f),
            list@ == around_of(edges@, prev@, next@, n, e as nat),
        decreases edges@.len() - e,
    {
        if prev[e] == n {
            let ghost before = list@;
            insert_by_id(&mut list, e, edges);
            proof {
                lemma_insert_keeps(before, list@, e);
            }
        }
        if next[e] == n {
            let ghost before = list@;
            insert_by_id(&mut list, e, edges);
            proof {
                lemma_insert_keeps(before, list@, e);
            }
        }
        e = e + 1;
    }
    list
}

impl Index {
    /// Numbers the nodes, names and states of `edges` and lists the edges
    /// around each node.
    pub fn build(edges: &[Edge]) -> (ix: Index)
        ensures
            ix.wf(edges@),
            ix.graph() == graph_of(edges@),
            texts(ix.nodes@) == node_table(edges@, edges@.len() as nat),
            texts(ix.names@) == name_table(edges@, edges@.len() as nat),
    {
        let mut nodes: Vec<String> = Vec::new();
        let mut names: Vec<String> = Vec::new();
        let mut prev: Vec<usize> = Vec::new();
        let mut next: Vec<usize> = Vec::new();
        let mut name: Vec<usize> = Vec::new();
        let mut snode: Vec<usize> = Vec::new();
        let mut sname: Vec<usize> = Vec::new();
        let mut sprev: Vec<usize> = Vec::new();
        let mut snext: Vec<usize> = Vec::new();
        let mut e: usize = 0;
        while e < edges.len()
            invariant
                e <= edges@.len(),
                prev@.len() == e,
                next@.len() == e,
                name@.len() == e,
                sprev@.len() == e,
                snext@.len() == e,
                distinct_texts(nodes@),
                distinct_texts(names@),
                texts(nodes@) == node_table(edges@, e as nat),
                texts(names@) == name_table(edges@, e as nat),
                pairs(snode@, sname@) == state_table(edges@, e as nat),
                snode@.len() == sname@.len(),
                forall|s: int|
                    0 <= s < snode@.len() ==> #[trigger] snode@[s] < nodes@.len() && sname@[s]
                        < names@.len(),
                forall|s: int, t: int|
                    0 <= s < snode@.len() && 0 <= t < snode@.len() && s != t
                        ==> #[trigger] snode@[s] != #[trigger] snode@[t] || sname@[s] != sname@[t],
                forall|f: int|
                    0 <= f < e ==> {
                        &&& #[trigger] prev@[f] < nodes@.len()
                        &&& next@[f] < nodes@.len()
                        &&& name@[f] < names@.len()
                        &&& nodes@[prev@[f] as int]@ == edges@[f].previous@
                        &&& nodes@[next@[f] as int]@ == edges@[f].next@
                        &&& names@[name@[f] as int]@ == edges@[f].edge_name@
                        &&& sprev@[f] < snode@.len()
                        &&& snext@[f] < snode@.len()
                        &&& snode@[sprev@[f] as int] == prev@[f]
                        &&& sname@[sprev@[f] as int] == name@[f]
                        &&& snode@[snext@[f] as int] == next@[f]
                        &&& sname@[snext@[f] as int] == name@[f]
                    },
            decreases edges@.len() - e,
        {
            let ghost nodes0 = nodes@;
            let ghost names0 = names@;
            let ghost snode0 = snode@;
            let ghost sname0 = sname@;
            let p = intern(&mut nodes, &edges[e].previous);
            let q = intern(&mut nodes, &edges[e].next);
            let m = intern(&mut names, &edges[e].edge_name);
            proof {
                let t = texts(nodes@);
                let u = texts(names@);
                assert(nodes@.len() == nodes.len() && names@.len() == names.len());
                assert forall|a: int, b: int|
                    0 <= a < t.len() && 0 <= b < t.len() && a != b implies t[a] != t[b] by {
                    assert(t[a] == nodes@[a]@ && t[b] == nodes@[b]@);
                }
                assert forall|a: int, b: int|
                    0 <= a < u.len() && 0 <= b < u.len() && a != b implies u[a] != u[b] by {
                    assert(u[a] == names@[a]@ && u[b] == names@[b]@);
                }
                assert(t[p as int] == nodes@[p as int]@);
                lemma_text_id(t, edges@[e as int].previous@, p as int);
                lemma_text_id(t, edges@[e as int].next@, q as int);
                lemma_text_id(u, edges@[e as int].edge_name@, m as int);
            }
            let a = intern_state(&mut snode, &mut sname, p, m);
            let b = intern_state(&mut snode, &mut sname, q, m);
            assert forall|s: int| 0 <= s < snode@.len() implies #[trigger] snode@[s] < nodes@.len()
                && sname@[s] < names@.len() by {
                if s < snode0.len() {
                    assert(snode@[s] == snode0[s] && sname@[s] == sname0[s]);
                }
            }
            prev.push(p);
            next.push(q);
            name.push(m);
            sprev.push(a);
            snext.push(b);
            assert forall|f: int| 0 <= f < e + 1 implies {
                &&& #[trigger] prev@[f] < nodes@.len()
                &&& next@[f] < nodes@.len()
                &&& name@[f] < names@.len()
                &&& nodes@[prev@[f] as int]@ == edges@[f].previous@
                &&& nodes@[next@[f] as int]@ == edges@[f].next@
                &&& names@[name@[f] as int]@ == edges@[f].edge_name@
                &&& sprev@[f] < snode@.len()
                &&& snext@[f] < snode@.len()
                &&& snode@[sprev@[f] as int] == prev@[f]
                &&& sname@[sprev@[f] as int] == name@[f]
                &&& snode@[snext@[f] as int] == next@[f]
                &&& sname@[snext@[f] as int] == name@[f]
            } by {
                if f < e {
                    assert(nodes@[prev@[f] as int] == nodes0[prev@[f] as int]);
                    assert(nodes@[next@[f] as int] == nodes0[next@[f] as int]);
                    assert(names@[name@[f] as int] == names0[name@[f] as int]);
                    assert(snode@[sprev@[f] as int] == snode0[sprev@[f] as int]);
                    assert(snode@[snext@[f] as int] == snode0[snext@[f] as int]);
                    assert(sname@[sprev@[f] as int] == sname0[sprev@[f] as int]);
                    assert(sname@[snext@[f] as int] == sname0[snext@[f] as int]);
                }
            }
            e = e + 1;
        }
        let mut adj: Vec<Vec<usize>> = Vec::new();
        let mut n: usize = 0;
        while n < nodes.len()
            invariant
                n <= nodes@.len(),
                adj@.len() == n,
                prev@.len() == edges@.len(),
                next@.len() == edges@.len(),
                forall|m: int, j: int|
                    0 <= m < n && 0 <= j < adj@[m]@.len() ==> {
                        let f = #[trigger] adj@[m]@[j];
                        &&& f < edges@.len()
                        &&& (prev@[f as int] == m || next@[f as int] == m)
                    },
                forall|m: int, f: usize|
                    0 <= m < n && f < edges@.len() && (prev@[f as int] == m || next@[f as int] == m)
                        ==> #[trigger] adj@[m]@.contains(f),
                forall|m: int|
                    0 <= m < n ==> #[trigger] adj@[m]@ == around_of(
                        edges@,
                        prev@,
                        next@,
                        m as usize,
                        edges@.len() as nat,
                    ),
            decreases nodes@.len() - n,
        {
            let list = edges_around(n, &prev, &next, edges);
            adj.push(list);
            n = n + 1;
        }
        let ns = snode.len();
        assert(ns == snode@.len());
        let ix = Index { nodes, names, prev, next, name, adj, snode, sname, sprev, snext };
        proof {
            let k = edges@.len();
            let gs = graph_of(edges@);
            let t = texts(ix.nodes@);
            let u = texts(ix.names@);
            let st = state_table(edges@, k as nat);
            assert(ix.nodes@.len() == ix.nodes.len() && ix.names@.len() == ix.names.len());
            assert(ix.snode@.len() == ix.snode.len());
            assert forall|a: int, b: int|
                0 <= a < t.len() && 0 <= b < t.len() && a != b implies t[a] != t[b] by {
                assert(t[a] == ix.nodes@[a]@ && t[b] == ix.nodes@[b]@);
            }
            assert forall|a: int, b: int|
                0 <= a < u.len() && 0 <= b < u.len() && a != b implies u[a] != u[b] by {
                assert(u[a] == ix.names@[a]@ && u[b] == ix.names@[b]@);
            }
            assert forall|a: int, b: int|
                0 <= a < st.len() && 0 <= b < st.len() && a != b implies st[a] != st[b] by {
                assert(st[a] == (ix.snode@[a], ix.sname@[a]));
                assert(st[b] == (ix.snode@[b], ix.sname@[b]));
            }
            assert forall|f: int| 0 <= f < k implies ix.prev@[f] == gs.prev[f] && ix.next@[f]
                == gs.next[f] && ix.name@[f] == gs.name[f] by {
                assert(t[ix.prev@[f] as int] == ix.nodes@[ix.prev@[f] as int]@);
                assert(t[ix.next@[f] as int] == ix.nodes@[ix.next@[f] as int]@);
                assert(u[ix.name@[f] as int] == ix.names@[ix.name@[f] as int]@);
                lemma_text_id(t, edges@[f].previous@, ix.prev@[f] as int);
                lemma_text_id(t, edges@[f].next@, ix.next@[f] as int);
                lemma_text_id(u, edges@[f].edge_name@, ix.name@[f] as int);
            }
            assert(ix.prev@ =~= gs.prev);
            assert(ix.next@ =~= gs.next);
            assert(ix.name@ =~= gs.name);
            assert forall|f: int| 0 <= f < k implies ix.sprev@[f] == gs.sprev[f] && ix.snext@[f]
                == gs.snext[f] by {
                assert(ix.prev@[f] < ix.nn());
                assert(st[ix.sprev@[f] as int] == (ix.snode@[ix.sprev@[f] as int], ix.sname@[ix.sprev@[f] as int]));
                assert(st[ix.snext@[f] as int] == (ix.snode@[ix.snext@[f] as int], ix.sname@[ix.snext@[f] as int]));
                lemma_state_id(st, (ix.prev@[f], ix.name@[f]), ix.sprev@[f] as int);
                lemma_state_id(st, (ix.next@[f], ix.name@[f]), ix.snext@[f] as int);
            }
            assert(ix.sprev@ =~= gs.sprev);
            assert(ix.snext@ =~= gs.snext);
            assert(ix.snode@ =~= gs.snode);
            assert(ix.sname@ =~= gs.sname);
            assert(ix.adj@.map_values(|v: Vec<usize>| v@) =~= gs.adj);
        }
        assert forall|f: int| 0 <= f < edges@.len() implies ix.around(ix.prev@[f]).contains(f as usize)
            && ix.around(ix.next@[f]).contains(f as usize) by {
            assert(ix.adj@[ix.prev@[f] as int]@.contains(f as usize));
            assert(ix.adj@[ix.next@[f] as int]@.contains(f as usize));
        }
        ix
    }
}

} // verus!
