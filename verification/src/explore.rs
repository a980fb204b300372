//! Exploring the plan graph a little at a time.
//!
//! The graph is not known in advance: each `focus` on a node (made by the
//! caller, since it is a request to mineplan) reports edges around it.  The
//! exploration decides which node to focus next, in breadth-first order and
//! within a budget of focus calls, collects the reported edges without
//! duplicate `edge_id`s, and after each report searches the edges seen so
//! far for a route.
use vstd::prelude::*;
use std::collections::VecDeque;

use crate::graph::{answers, path_view, segment_views, texts, Edge, FoundPath, PathView, Segment};
use crate::index::position_of;
use crate::path::{find_path, search_answer};
use crate::rounds::{focuses_again, Progress};

verus! {

/// What the exploration asks for next.
pub enum ExploreAction {
    /// Report the edges around this node.
    Focus(String),
    /// A route was found (or none is needed); this is the answer.
    Found(FoundPath),
    /// The budget is spent or no node is left to focus: no route was found
    /// in the part of the graph seen.
    NotFound,
}

/// The state of an exploration from `from` to `to`.
pub struct Exploration {
    from: String,
    to: String,
    max_focus_calls: usize,
    queue: VecDeque<String>,
    scheduled: Vec<String>,
    focused: Vec<String>,
    edges: Vec<Edge>,
}

/// The edges of `es` by `edge_id`.
pub open spec fn id_map(es: Seq<Edge>) -> Map<i64, Edge> {
    Map::new(
        |id: i64| exists|i: int| 0 <= i < es.len() && es[i].edge_id == id,
        |id: i64| es[choose|i: int| 0 <= i < es.len() && es[i].edge_id == id],
    )
}

/// `edge_id`s rise strictly along `es`.
pub open spec fn ids_rise(es: Seq<Edge>) -> bool {
    forall|i: int, j: int| 0 <= i < j < es.len() ==> es[i].edge_id < es[j].edge_id
}

/// `m` with the edges of `cs` added in order, an edge being dropped when
/// its `edge_id` is already there.
pub open spec fn merged(m: Map<i64, Edge>, cs: Seq<Edge>) -> Map<i64, Edge>
    decreases cs.len(),
{
    if cs.len() == 0 {
        m
    } else {
        let before = merged(m, cs.drop_last());
        let e = cs.last();
        if before.contains_key(e.edge_id) {
            before
        } else {
            before.insert(e.edge_id, e)
        }
    }
}

/// The texts of both ends of each edge of `cs`, `previous` first.
pub open spec fn endpoints(cs: Seq<Edge>) -> Seq<Seq<char>>
    decreases cs.len(),
{
    if cs.len() == 0 {
        Seq::empty()
    } else {
        endpoints(cs.drop_last()).push(cs.last().previous@).push(cs.last().next@)
    }
}

/// `known` with each text of `ts` that it lacks added at the end, in order.
pub open spec fn scheduled_after(known: Seq<Seq<char>>, ts: Seq<Seq<char>>) -> Seq<Seq<char>>
    decreases ts.len(),
{
    if ts.len() == 0 {
        known
    } else {
        let before = scheduled_after(known, ts.drop_last());
        if before.contains(ts.last()) {
            before
        } else {
            before.push(ts.last())
        }
    }
}

/// The nodes queued after a report are those queued before and the ends
/// of the reported edges.
pub proof fn law_queued_are_reported(known: Seq<Seq<char>>, cs: Seq<Edge>, t: Seq<char>)
    ensures
        scheduled_after(known, endpoints(cs)).contains(t) <==> known.contains(t) || exists|i: int|
            0 <= i < cs.len() && (cs[i].previous@ == t || cs[i].next@ == t),
{
    lemma_endpoints_hold(cs, t);
    lemma_scheduled_after_holds(known, endpoints(cs), t);
}

/// The ends listed by `endpoints` are those of the edges.
proof fn lemma_endpoints_hold(cs: Seq<Edge>, t: Seq<char>)
    ensures
        endpoints(cs).contains(t) <==> exists|i: int|
            0 <= i < cs.len() && (cs[i].previous@ == t || cs[i].next@ == t),
    decreases cs.len(),
{
    if cs.len() > 0 {
        let c = cs.drop_last();
        lemma_endpoints_hold(c, t);
        let e0 = endpoints(c);
        let e1 = e0.push(cs.last().previous@);
        let e2 = e1.push(cs.last().next@);
        assert(e2[e0.len() as int] == cs.last().previous@);
        assert(e2[e0.len() as int + 1] == cs.last().next@);
        if e2.contains(t) {
            let k = choose|k: int| 0 <= k < e2.len() && e2[k] == t;
            if k < e0.len() {
                assert(e0[k] == t);
                let i = choose|i: int| 0 <= i < c.len() && (c[i].previous@ == t || c[i].next@ == t);
                assert(cs[i] == c[i]);
            } else {
                assert(cs[cs.len() - 1] == cs.last());
            }
        }
        if exists|i: int| 0 <= i < cs.len() && (cs[i].previous@ == t || cs[i].next@ == t) {
            let i = choose|i: int| 0 <= i < cs.len() && (cs[i].previous@ == t || cs[i].next@ == t);
            if i < c.len() {
                assert(c[i] == cs[i]);
                let k = choose|k: int| 0 <= k < e0.len() && e0[k] == t;
                assert(e2[k] == t);
            }
        }
    }
}

/// `scheduled_after` holds what was known and what was added.
proof fn lemma_scheduled_after_holds(known: Seq<Seq<char>>, ts: Seq<Seq<char>>, t: Seq<char>)
    ensures
        scheduled_after(known, ts).contains(t) <==> known.contains(t) || ts.contains(t),
    decreases ts.len(),
{
    if ts.len() > 0 {
        let d = ts.drop_last();
        lemma_scheduled_after_holds(known, d, t);
        let b = scheduled_after(known, d);
        if !b.contains(ts.last()) {
            assert(b.push(ts.last())[b.len() as int] == ts.last());
            if b.push(ts.last()).contains(t) && t != ts.last() {
                let k = choose|k: int| 0 <= k < b.push(ts.last()).len() && b.push(ts.last())[k] == t;
                assert(b[k] == t);
            }
            if b.contains(t) {
                let k = choose|k: int| 0 <= k < b.len() && b[k] == t;
                assert(b.push(ts.last())[k] == t);
            }
        }
        if ts.contains(t) {
            let k = choose|k: int| 0 <= k < ts.len() && ts[k] == t;
            if k < d.len() {
                assert(d[k] == t);
            }
        }
        if d.contains(t) {
            let k = choose|k: int| 0 <= k < d.len() && d[k] == t;
            assert(ts[k] == t);
        }
    }
}

/// No text occurs twice in `v`.
pub open spec fn no_repeats(v: Seq<Seq<char>>) -> bool {
    forall|i: int, j: int| 0 <= i < j < v.len() ==> v[i] != v[j]
}

/// Every queued node was focused or still waits; only queued nodes are
/// focused or wait.
pub open spec fn covered(seen: Seq<Seq<char>>, done: Seq<Seq<char>>, waiting: Seq<Seq<char>>) -> bool {
    &&& forall|t: Seq<char>| #[trigger] seen.contains(t) ==> done.contains(t) || waiting.contains(t)
    &&& forall|t: Seq<char>| #[trigger] done.contains(t) ==> seen.contains(t)
    &&& forall|t: Seq<char>| #[trigger] waiting.contains(t) ==> seen.contains(t)
}

/// Queuing a new node keeps every node accounted for.
proof fn lemma_covered_queue(seen: Seq<Seq<char>>, done: Seq<Seq<char>>, waiting: Seq<Seq<char>>, t: Seq<char>)
    requires
        covered(seen, done, waiting),
    ensures
        covered(seen.push(t), done, waiting.push(t)),
{
    assert forall|u: Seq<char>| #[trigger] seen.push(t).contains(u) implies done.contains(u)
        || waiting.push(t).contains(u) by {
        if u != t {
            let i = choose|i: int| 0 <= i < seen.push(t).len() && seen.push(t)[i] == u;
            assert(seen[i] == u);
            assert(seen.contains(u));
            if waiting.contains(u) {
                let k = choose|k: int| 0 <= k < waiting.len() && waiting[k] == u;
                assert(waiting.push(t)[k] == u);
            }
        } else {
            assert(waiting.push(t)[waiting.len() as int] == t);
        }
    }
    assert forall|u: Seq<char>| #[trigger] done.contains(u) implies seen.push(t).contains(u) by {
        let i = choose|i: int| 0 <= i < seen.len() && seen[i] == u;
        assert(seen.push(t)[i] == u);
    }
    assert forall|u: Seq<char>| #[trigger] waiting.push(t).contains(u) implies seen.push(t).contains(
        u,
    ) by {
        let i = choose|i: int| 0 <= i < waiting.push(t).len() && waiting.push(t)[i] == u;
        if i < waiting.len() {
            assert(waiting[i] == u);
            assert(waiting.contains(u));
            let k = choose|k: int| 0 <= k < seen.len() && seen[k] == u;
            assert(seen.push(t)[k] == u);
        } else {
            assert(seen.push(t)[seen.len() as int] == t);
        }
    }
}

/// Taking the first waiting node off the queue keeps every node accounted
/// for, once that node counts as focused.
proof fn lemma_covered_pop(seen: Seq<Seq<char>>, done: Seq<Seq<char>>, waiting: Seq<Seq<char>>, done2: Seq<Seq<char>>)
    requires
        covered(seen, done, waiting),
        waiting.len() > 0,
        done2.contains(waiting[0]),
        forall|u: Seq<char>| #[trigger] done2.contains(u) ==> done.contains(u) || u == waiting[0],
        forall|u: Seq<char>| #[trigger] done.contains(u) ==> done2.contains(u),
    ensures
        covered(seen, done2, waiting.drop_first()),
{
    let rest = waiting.drop_first();
    assert forall|u: Seq<char>| #[trigger] seen.contains(u) implies done2.contains(u) || rest.contains(u) by {
        if !done.contains(u) && u != waiting[0] {
            let k = choose|k: int| 0 <= k < waiting.len() && waiting[k] == u;
            assert(rest[k - 1] == u);
        }
    }
    assert forall|u: Seq<char>| #[trigger] done2.contains(u) implies seen.contains(u) by {
        if u == waiting[0] {
            assert(waiting.contains(u));
        }
    }
    assert forall|u: Seq<char>| #[trigger] rest.contains(u) implies seen.contains(u) by {
        let k = choose|k: int| 0 <= k < rest.len() && rest[k] == u;
        assert(waiting[k + 1] == u);
        assert(waiting.contains(u));
    }
}

/// The first position of `q` whose text is not in `done`.
pub open spec fn first_pending(q: Seq<Seq<char>>, done: Seq<Seq<char>>) -> Option<int>
    decreases q.len(),
{
    if q.len() == 0 {
        None
    } else if !done.contains(q[0]) {
        Some(0)
    } else {
        match first_pending(q.drop_first(), done) {
            Some(k) => Some(k + 1),
            None => None,
        }
    }
}

/// A copy of `e`.
fn edge_copy(e: &Edge) -> (r: Edge)
    ensures
        r == *e,
{
    Edge {
        edge_id: e.edge_id,
        edge_name: e.edge_name.clone(),
        previous: e.previous.clone(),
        next: e.next.clone(),
    }
}

/// Inserting an edge with a new `edge_id` at its place keeps the ids rising
/// and adds it to the map by id.
proof fn lemma_id_map_insert(es: Seq<Edge>, p: int, e: Edge)
    requires
        ids_rise(es),
        0 <= p <= es.len(),
        forall|i: int| 0 <= i < p ==> es[i].edge_id < e.edge_id,
        forall|i: int| p <= i < es.len() ==> es[i].edge_id > e.edge_id,
    ensures
        ids_rise(es.insert(p, e)),
        !id_map(es).contains_key(e.edge_id),
        id_map(es.insert(p, e)) == id_map(es).insert(e.edge_id, e),
{
    let es2 = es.insert(p, e);
    assert forall|i: int, j: int| 0 <= i < j < es2.len() implies es2[i].edge_id < es2[j].edge_id by {
        if j < p {
        } else if j == p {
        } else if i < p {
        } else if i == p {
            assert(es2[j] == es[j - 1]);
        } else {
            assert(es2[i] == es[i - 1]);
            assert(es2[j] == es[j - 1]);
        }
    }
    if id_map(es).contains_key(e.edge_id) {
        let i = choose|i: int| 0 <= i < es.len() && es[i].edge_id == e.edge_id;
    }
    let m2 = id_map(es2);
    let m1 = id_map(es).insert(e.edge_id, e);
    assert forall|id: i64| m2.contains_key(id) <==> m1.contains_key(id) by {
        if m2.contains_key(id) && id != e.edge_id {
            let i = choose|i: int| 0 <= i < es2.len() && es2[i].edge_id == id;
            if i < p {
                assert(es[i].edge_id == id);
            } else {
                assert(es2[i] == es[i - 1]);
            }
        }
        if m1.contains_key(id) && id != e.edge_id {
            let i = choose|i: int| 0 <= i < es.len() && es[i].edge_id == id;
            if i < p {
                assert(es2[i].edge_id == id);
            } else {
                assert(es2[i + 1] == es[i]);
            }
        }
        if id == e.edge_id {
            assert(es2[p] == e);
        }
    }
    assert forall|id: i64| #[trigger] m2.contains_key(id) implies m2[id] == m1[id] by {
        let i = choose|i: int| 0 <= i < es2.len() && es2[i].edge_id == id;
        if id == e.edge_id {
            assert(es2[p] == e);
            assert(i == p);
        } else {
            let j = choose|j: int| 0 <= j < es.len() && es[j].edge_id == id;
            if i < p {
                assert(es2[i] == es[i]);
                assert(i == j);
            } else {
                assert(i != p);
                assert(es2[i] == es[i - 1]);
                assert(i - 1 == j);
            }
        }
    }
    assert(m2 =~= m1);
}

/// Adds `e` to `edges` at its place by `edge_id`, unless an edge with that
/// id is there already.
fn collect_edge(edges: &mut Vec<Edge>, e: &Edge)
    requires
        ids_rise(old(edges)@),
    ensures
        ids_rise(final(edges)@),
        id_map(final(edges)@) == if id_map(old(edges)@).contains_key(e.edge_id) {
            id_map(old(edges)@)
        } else {
            id_map(old(edges)@).insert(e.edge_id, *e)
        },
{
    let mut p: usize = 0;
    while p < edges.len() && edges[p].edge_id < e.edge_id
        invariant
            p <= edges@.len(),
            forall|i: int| 0 <= i < p ==> edges@[i].edge_id < e.edge_id,
        decreases edges@.len() - p,
    {
        p = p + 1;
    }
    if p < edges.len() && edges[p].edge_id == e.edge_id {
        assert(id_map(edges@).contains_key(e.edge_id));
        return;
    }
    let ghost es = edges@;
    assert forall|i: int| p <= i < es.len() implies es[i].edge_id > e.edge_id by {
        if i > p {
            assert(es[p as int].edge_id < es[i].edge_id);
        }
    }
    proof {
        lemma_id_map_insert(es, p as int, *e);
    }
    edges.insert(p, edge_copy(e));
}

impl Exploration {
    /// The node the exploration starts from.
    pub closed spec fn from_text(&self) -> Seq<char> {
        self.from@
    }

    /// The node a route is sought to.
    pub closed spec fn to_text(&self) -> Seq<char> {
        self.to@
    }

    /// The most focus calls the exploration makes.
    pub closed spec fn budget(&self) -> nat {
        self.max_focus_calls as nat
    }

    /// The nodes waiting to be focused, in order.
    pub closed spec fn waiting(&self) -> Seq<Seq<char>> {
        texts(self.queue@)
    }

    /// The nodes ever queued, in the order they were queued.
    pub closed spec fn seen(&self) -> Seq<Seq<char>> {
        texts(self.scheduled@)
    }

    /// The nodes focused so far, in order.
    pub closed spec fn done(&self) -> Seq<Seq<char>> {
        texts(self.focused@)
    }

    /// The edges collected so far, by rising `edge_id`.
    pub closed spec fn collected(&self) -> Seq<Edge> {
        self.edges@
    }

    /// The nodes queued, focused and waiting.
    pub open spec fn progress(&self) -> Progress {
        Progress { seen: self.seen(), done: self.done(), waiting: self.waiting() }
    }

    /// The parts of the state agree with each other.
    pub closed spec fn wf(&self) -> bool {
        &&& ids_rise(self.edges@)
        &&& no_repeats(texts(self.scheduled@))
        &&& no_repeats(texts(self.focused@))
        &&& covered(texts(self.scheduled@), texts(self.focused@), texts(self.queue@))
    }

    /// An exploration from `from` to `to` with at most `max_focus_calls`
    /// focus calls: `from` waits to be focused; nothing is collected yet.
    pub fn new(from: &str, to: &str, max_focus_calls: usize) -> (x: Exploration)
        ensures
            x.wf(),
            no_repeats(x.done()),
            no_repeats(x.seen()),
            covered(x.seen(), x.done(), x.waiting()),
            x.from_text() == from@,
            x.to_text() == to@,
            x.budget() == max_focus_calls,
            x.waiting() == seq![from@],
            x.seen() == seq![from@],
            x.done() == Seq::<Seq<char>>::empty(),
            x.collected() == Seq::<Edge>::empty(),
    {
        let mut queue: VecDeque<String> = VecDeque::new();
        queue.push_back(from.to_owned());
        let mut scheduled: Vec<String> = Vec::new();
        scheduled.push(from.to_owned());
        let x = Exploration {
            from: from.to_owned(),
            to: to.to_owned(),
            max_focus_calls,
            queue,
            scheduled,
            focused: Vec::new(),
            edges: Vec::new(),
        };
        assert(texts(x.queue@) =~= seq![from@]);
        assert(texts(x.scheduled@) =~= seq![from@]);
        assert(texts(x.focused@) =~= Seq::<Seq<char>>::empty());
        x
    }

    /// Decides what to do next.  When `from` and `to` are the same node the
    /// answer is found at once: no turn, no task.  Otherwise, while the
    /// budget allows another focus call, the first waiting node that was not
    /// focused yet is taken off the queue (with the focused ones before it)
    /// and focused; when the budget is spent, or no such node waits, nothing
    /// was found.
    pub fn next_action(&mut self) -> (a: ExploreAction)
        requires
            old(self).wf(),
        ensures
            final(self).wf(),
            no_repeats(final(self).done()),
            no_repeats(final(self).seen()),
            covered(final(self).seen(), final(self).done(), final(self).waiting()),
            final(self).from_text() == old(self).from_text(),
            final(self).to_text() == old(self).to_text(),
            final(self).budget() == old(self).budget(),
            final(self).seen() == old(self).seen(),
            final(self).collected() == old(self).collected(),
            old(self).done().len() <= old(self).budget() ==> final(self).done().len() <= final(self).budget(),
            old(self).from_text() != old(self).to_text() ==> (a is Focus <==> focuses_again(
                old(self).progress(),
                old(self).budget(),
            )),
            a is NotFound ==> final(self).done().len() >= final(self).budget() || forall|t: Seq<char>|
                #[trigger] final(self).seen().contains(t) ==> final(self).done().contains(t),
            old(self).from_text() == old(self).to_text() ==> {
                &&& a matches ExploreAction::Found(p) && path_view(Some(p)) == Some(
                    PathView { turns: 0, tasks: Seq::<Segment>::empty() },
                )
                &&& final(self).waiting() == old(self).waiting()
                &&& final(self).done() == old(self).done()
            },
            old(self).from_text() != old(self).to_text() && old(self).done().len() >= old(self).budget() ==> {
                &&& a is NotFound
                &&& final(self).waiting() == old(self).waiting()
                &&& final(self).done() == old(self).done()
            },
            old(self).from_text() != old(self).to_text() && old(self).done().len() < old(self).budget() ==> match first_pending(old(self).waiting(), old(self).done()) {
                Some(k) => {
                    &&& a matches ExploreAction::Focus(n) && n@ == old(self).waiting()[k]
                    &&& final(self).waiting() == old(self).waiting().skip(k + 1)
                    &&& final(self).done() == old(self).done().push(old(self).waiting()[k])
                },
                None => {
                    &&& a is NotFound
                    &&& final(self).waiting() == Seq::<Seq<char>>::empty()
                    &&& final(self).done() == old(self).done()
                },
            },
    {
        if self.from == self.to {
            let p = FoundPath { turns: 0, tasks: Vec::new() };
            assert(segment_views(p.tasks@) =~= Seq::<Segment>::empty());
            return ExploreAction::Found(p);
        }
        if self.focused.len() >= self.max_focus_calls {
            return ExploreAction::NotFound;
        }
        let ghost q0 = texts(self.queue@);
        let ghost done = texts(self.focused@);
        let ghost mut m: int = 0;
        assert(q0.skip(0) =~= q0);
        loop
            invariant
                self.wf(),
                self.from == old(self).from,
                self.to == old(self).to,
                self.max_focus_calls == old(self).max_focus_calls,
                self.scheduled == old(self).scheduled,
                self.edges == old(self).edges,
                self.focused == old(self).focused,
                q0 == texts(old(self).queue@),
                done == texts(old(self).focused@),
                self.from@ != self.to@,
                done.len() < self.max_focus_calls,
                0 <= m <= q0.len(),
                texts(self.queue@) == q0.skip(m),
                first_pending(q0, done) == match first_pending(q0.skip(m), done) {
                    Some(k) => Some(k + m),
                    None => None,
                },
            decreases self.queue@.len(),
        {
            let ghost qm = texts(self.queue@);
            match self.queue.pop_front() {
                None => {
                    assert(qm.len() == 0);
                    assert(q0.skip(m).len() == 0);
                    return ExploreAction::NotFound;
                },
                Some(node) => {
                    assert(qm[0] == node@);
                    assert(texts(self.queue@) =~= qm.drop_first());
                    assert(q0.skip(m).drop_first() =~= q0.skip(m + 1));
                    match position_of(&self.focused, &node) {
                        Some(_) => {
                            assert(done.contains(node@)) by {
                                let i = choose|i: int|
                                    0 <= i < self.focused@.len() && self.focused@[i]@ == node@;
                                assert(done[i] == node@);
                            }
                            proof {
                                lemma_covered_pop(texts(self.scheduled@), done, qm, done);
                            }
                            proof {
                                m = m + 1;
                            }
                        },
                        None => {
                            assert(!done.contains(node@)) by {
                                if done.contains(node@) {
                                    let i = choose|i: int| 0 <= i < done.len() && done[i] == node@;
                                    assert(self.focused@[i]@ == node@);
                                }
                            }
                            assert(first_pending(qm, done) == Some(0int));
                            let ghost f0 = self.focused@;
                            self.focused.push(node.clone());
                            assert(texts(self.focused@) =~= done.push(node@));
                            proof {
                                assert(done.push(node@)[done.len() as int] == node@);
                                assert forall|u: Seq<char>| #[trigger] done.push(node@).contains(u)
                                    implies done.contains(u) || u == qm[0] by {
                                    let k = choose|k: int|
                                        0 <= k < done.push(node@).len() && done.push(node@)[k] == u;
                                    if k < done.len() {
                                        assert(done[k] == u);
                                    }
                                }
                                assert forall|u: Seq<char>| #[trigger] done.contains(u) implies done.push(
                                    node@,
                                ).contains(u) by {
                                    let k = choose|k: int| 0 <= k < done.len() && done[k] == u;
                                    assert(done.push(node@)[k] == u);
                                }
                                lemma_covered_pop(texts(self.scheduled@), done, qm, done.push(node@));
                            }
                            assert(no_repeats(texts(self.focused@))) by {
                                assert forall|i: int, j: int|
                                    0 <= i < j < texts(self.focused@).len() implies texts(
                                    self.focused@,
                                )[i] != texts(self.focused@)[j] by {
                                    if j == done.len() {
                                        assert(done[i] != node@);
                                    } else {
                                        assert(texts(self.focused@)[i] == done[i]);
                                        assert(texts(self.focused@)[j] == done[j]);
                                    }
                                }
                            }
                            assert(q0.skip(m + 1) =~= qm.drop_first());
                            assert(q0[m] == node@);
                            return ExploreAction::Focus(node);
                        },
                    }
                },
            }
        }
    }

    /// Queues the node with text `t` unless it was queued before.
    fn schedule(&mut self, t: &String)
        requires
            old(self).wf(),
        ensures
            final(self).wf(),
            no_repeats(final(self).done()),
            no_repeats(final(self).seen()),
            covered(final(self).seen(), final(self).done(), final(self).waiting()),
            final(self).from == old(self).from,
            final(self).to == old(self).to,
            final(self).max_focus_calls == old(self).max_focus_calls,
            final(self).focused == old(self).focused,
            final(self).edges == old(self).edges,
            texts(final(self).scheduled@) == if texts(old(self).scheduled@).contains(t@) {
                texts(old(self).scheduled@)
            } else {
                texts(old(self).scheduled@).push(t@)
            },
            texts(final(self).queue@) == if texts(old(self).scheduled@).contains(t@) {
                texts(old(self).queue@)
            } else {
                texts(old(self).queue@).push(t@)
            },
    {
        let ghost seen = texts(self.scheduled@);
        match position_of(&self.scheduled, t) {
            Some(i) => {
                assert(seen[i as int] == t@);
            },
            None => {
                assert(!seen.contains(t@)) by {
                    if seen.contains(t@) {
                        let i = choose|i: int| 0 <= i < seen.len() && seen[i] == t@;
                        assert(self.scheduled@[i]@ == t@);
                    }
                }
                let ghost q = texts(self.queue@);
                proof {
                    lemma_covered_queue(seen, texts(self.focused@), q, t@);
                }
                self.scheduled.push(t.clone());
                self.queue.push_back(t.clone());
                assert(texts(self.scheduled@) =~= seen.push(t@));
                assert(texts(self.queue@) =~= q.push(t@));
                assert(no_repeats(texts(self.scheduled@))) by {
                    assert forall|i: int, j: int|
                        0 <= i < j < texts(self.scheduled@).len() implies texts(self.scheduled@)[i]
                        != texts(self.scheduled@)[j] by {
                        if j == seen.len() {
                            assert(seen[i] != t@);
                        } else {
                            assert(texts(self.scheduled@)[i] == seen[i]);
                            assert(texts(self.scheduled@)[j] == seen[j]);
                        }
                    }
                }
            },
        }
    }

    /// Takes in the edges a focus call reported: queues each end of each
    /// edge not queued before, `previous` before `next`; keeps each edge whose
    /// `edge_id` is new; then searches the edges collected so far for a route
    /// from `from` to `to`.
    pub fn observe(&mut self, connections: Vec<Edge>) -> (r: Option<FoundPath>)
        requires
            old(self).wf(),
        ensures
            final(self).wf(),
            no_repeats(final(self).done()),
            no_repeats(final(self).seen()),
            covered(final(self).seen(), final(self).done(), final(self).waiting()),
            final(self).from_text() == old(self).from_text(),
            final(self).to_text() == old(self).to_text(),
            final(self).budget() == old(self).budget(),
            final(self).done() == old(self).done(),
            final(self).seen() == scheduled_after(old(self).seen(), endpoints(connections@)),
            final(self).waiting() == old(self).waiting() + final(self).seen().skip(
                old(self).seen().len() as int,
            ),
            ids_rise(final(self).collected()),
            id_map(final(self).collected()) == merged(
                id_map(old(self).collected()),
                connections@,
            ),
            answers(
                final(self).collected(),
                final(self).from_text(),
                final(self).to_text(),
                path_view(r),
            ),
            path_view(r) == search_answer(
                final(self).collected(),
                final(self).from_text(),
                final(self).to_text(),
            ),
    {
        let ghost seen0 = texts(self.scheduled@);
        let ghost q0 = texts(self.queue@);
        let ghost map0 = id_map(self.edges@);
        let mut i: usize = 0;
        while i < connections.len()
            invariant
                self.wf(),
                self.from == old(self).from,
                self.to == old(self).to,
                self.max_focus_calls == old(self).max_focus_calls,
                self.focused == old(self).focused,
                seen0 == texts(old(self).scheduled@),
                q0 == texts(old(self).queue@),
                map0 == id_map(old(self).edges@),
                i <= connections@.len(),
                texts(self.scheduled@) == scheduled_after(
                    seen0,
                    endpoints(connections@.take(i as int)),
                ),
                seen0.len() <= texts(self.scheduled@).len(),
                texts(self.scheduled@).take(seen0.len() as int) == seen0,
                texts(self.queue@) == q0 + texts(self.scheduled@).skip(seen0.len() as int),
                id_map(self.edges@) == merged(map0, connections@.take(i as int)),
            decreases connections@.len() - i,
        {
            let c = &connections[i];
            let ghost cs1 = connections@.take(i + 1);
            assert(cs1.drop_last() =~= connections@.take(i as int));
            assert(cs1.last() == *c);
            let ghost s0 = texts(self.scheduled@);
            self.schedule(&c.previous);
            let ghost s1 = texts(self.scheduled@);
            self.schedule(&c.next);
            let ghost s2 = texts(self.scheduled@);
            assert(endpoints(cs1) == endpoints(connections@.take(i as int)).push(c.previous@).push(
                c.next@,
            ));
            let ghost ts = endpoints(cs1);
            assert(ts.drop_last() =~= endpoints(connections@.take(i as int)).push(c.previous@));
            assert(ts.drop_last().drop_last() =~= endpoints(connections@.take(i as int)));
            assert(ts.last() == c.next@);
            assert(ts.drop_last().last() == c.previous@);
            assert(ts.drop_last().drop_last() == endpoints(connections@.take(i as int)));
            assert(s0 == scheduled_after(seen0, ts.drop_last().drop_last()));
            assert(s1 == scheduled_after(seen0, ts.drop_last()));
            assert(s2 == scheduled_after(seen0, ts));
            assert(s2.take(seen0.len() as int) =~= seen0);
            assert(texts(self.queue@) =~= q0 + s2.skip(seen0.len() as int)) by {
                if s1 != s0 {
                    assert(s1.skip(seen0.len() as int) =~= s0.skip(seen0.len() as int).push(c.previous@));
                }
                if s2 != s1 {
                    assert(s2.skip(seen0.len() as int) =~= s1.skip(seen0.len() as int).push(c.next@));
                }
            }
            collect_edge(&mut self.edges, c);
            i = i + 1;
        }
        assert(connections@.take(connections@.len() as int) =~= connections@);
        find_path(self.edges.as_slice(), self.from.as_str(), self.to.as_str())
    }
}

} // verus!
