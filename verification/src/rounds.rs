//! A whole exploration, round by round.
//!
//! Each round is one `next_action` that asks for a focus call and one
//! `observe` of its report; `round` is what their contracts say the two do
//! to the queued, focused and waiting nodes.
use vstd::prelude::*;

use crate::explore::{
    covered, endpoints, first_pending, law_queued_are_reported, no_repeats, scheduled_after,
};
use crate::graph::Edge;

verus! {

/// The nodes an exploration has queued (`seen`), focused (`done`) and has
/// still waiting, as texts.
pub struct Progress {
    pub seen: Seq<Seq<char>>,
    pub done: Seq<Seq<char>>,
    pub waiting: Seq<Seq<char>>,
}

/// Before the first round: `from` queued and waiting, nothing focused.
pub open spec fn start(from: Seq<char>) -> Progress {
    Progress { seen: seq![from], done: Seq::empty(), waiting: seq![from] }
}

/// Whether `next_action` asks for another focus call: the budget allows one
/// and a node not focused yet waits.
pub open spec fn focuses_again(p: Progress, budget: nat) -> bool {
    p.done.len() < budget && first_pending(p.waiting, p.done) is Some
}

/// One round: the first waiting node not focused yet is focused, the nodes
/// waiting before it leave the queue, and the ends of the reported edges
/// `cs` not queued before are queued.
pub open spec fn round(p: Progress, cs: Seq<Edge>) -> Progress {
    let k = first_pending(p.waiting, p.done).unwrap();
    let seen = scheduled_after(p.seen, endpoints(cs));
    Progress {
        seen,
        done: p.done.push(p.waiting[k]),
        waiting: p.waiting.skip(k + 1) + seen.skip(p.seen.len() as int),
    }
}

/// The progress after one round for each report of `reports`, in order.
pub open spec fn after_rounds(from: Seq<char>, reports: Seq<Seq<Edge>>) -> Progress
    decreases reports.len(),
{
    if reports.len() == 0 {
        start(from)
    } else {
        round(after_rounds(from, reports.drop_last()), reports.last())
    }
}

/// Whether a focus call was asked for before each report of `reports`.
pub open spec fn rounds_made(from: Seq<char>, budget: nat, reports: Seq<Seq<Edge>>) -> bool {
    forall|i: int|
        0 <= i < reports.len() ==> focuses_again(#[trigger] after_rounds(from, reports.take(i)), budget)
}

/// `t` is `from` or an end of an edge of one of the reports.
pub open spec fn reported(from: Seq<char>, reports: Seq<Seq<Edge>>, t: Seq<char>) -> bool {
    ||| t == from
    ||| exists|i: int, j: int|
        0 <= i < reports.len() && 0 <= j < reports[i].len() && (reports[i][j].previous@ == t
            || reports[i][j].next@ == t)
}

/// What `first_pending` finds: the first position whose text is not in
/// `done`; when it finds none, every text of `q` is in `done`.
proof fn lemma_first_pending(q: Seq<Seq<char>>, done: Seq<Seq<char>>)
    ensures
        match first_pending(q, done) {
            Some(k) => {
                &&& 0 <= k < q.len()
                &&& !done.contains(q[k])
                &&& forall|j: int| 0 <= j < k ==> done.contains(#[trigger] q[j])
            },
            None => forall|j: int| 0 <= j < q.len() ==> done.contains(#[trigger] q[j]),
        },
    decreases q.len(),
{
    if q.len() > 0 && done.contains(q[0]) {
        let r = q.drop_first();
        lemma_first_pending(r, done);
        assert forall|j: int| 1 <= j < q.len() implies q[j] == r[j - 1] by {}
    }
}

/// Queuing keeps what was queued in front, and repeats nothing that was
/// not repeated.
proof fn lemma_scheduled_after_grows(known: Seq<Seq<char>>, ts: Seq<Seq<char>>)
    ensures
        scheduled_after(known, ts).len() >= known.len(),
        scheduled_after(known, ts).take(known.len() as int) == known,
        no_repeats(known) ==> no_repeats(scheduled_after(known, ts)),
    decreases ts.len(),
{
    if ts.len() > 0 {
        let d = ts.drop_last();
        lemma_scheduled_after_grows(known, d);
        let b = scheduled_after(known, d);
        if !b.contains(ts.last()) {
            assert(b.push(ts.last()).take(known.len() as int) =~= b.take(known.len() as int));
            if no_repeats(known) {
                assert forall|i: int, j: int| 0 <= i < j < b.len() + 1 implies b.push(ts.last())[i]
                    != b.push(ts.last())[j] by {
                    if j == b.len() {
                        assert(b[i] != ts.last());
                    }
                }
            }
        }
    }
}

/// `reported` for one more report.
proof fn lemma_reported_push(
    from: Seq<char>,
    reports: Seq<Seq<Edge>>,
    cs: Seq<Edge>,
    t: Seq<char>,
)
    ensures
        reported(from, reports.push(cs), t) <==> reported(from, reports, t) || exists|j: int|
            0 <= j < cs.len() && (cs[j].previous@ == t || cs[j].next@ == t),
{
    let rs = reports.push(cs);
    if exists|i: int, j: int|
        0 <= i < rs.len() && 0 <= j < rs[i].len() && (rs[i][j].previous@ == t || rs[i][j].next@ == t) {
        let (i, j) = choose|i: int, j: int|
            0 <= i < rs.len() && 0 <= j < rs[i].len() && (rs[i][j].previous@ == t || rs[i][j].next@
                == t);
        if i < reports.len() {
            assert(rs[i] == reports[i]);
        } else {
            assert(rs[i] == cs);
        }
    }
    if exists|i: int, j: int|
        0 <= i < reports.len() && 0 <= j < reports[i].len() && (reports[i][j].previous@ == t
            || reports[i][j].next@ == t) {
        let (i, j) = choose|i: int, j: int|
            0 <= i < reports.len() && 0 <= j < reports[i].len() && (reports[i][j].previous@ == t
                || reports[i][j].next@ == t);
        assert(rs[i] == reports[i]);
    }
    if exists|j: int| 0 <= j < cs.len() && (cs[j].previous@ == t || cs[j].next@ == t) {
        let j = choose|j: int| 0 <= j < cs.len() && (cs[j].previous@ == t || cs[j].next@ == t);
        assert(rs[reports.len() as int] == cs);
    }
}

/// What every round keeps: nothing queued or focused twice, every queued
/// node focused or waiting, and the queued nodes those reported.
pub open spec fn rounds_ok(from: Seq<char>, reports: Seq<Seq<Edge>>, p: Progress) -> bool {
    &&& no_repeats(p.seen)
    &&& no_repeats(p.done)
    &&& covered(p.seen, p.done, p.waiting)
    &&& p.done.len() == reports.len()
    &&& forall|t: Seq<char>| #[trigger] p.seen.contains(t) <==> reported(from, reports, t)
}

/// A round keeps what every round keeps.
proof fn lemma_round(from: Seq<char>, reports: Seq<Seq<Edge>>, p: Progress, cs: Seq<Edge>)
    requires
        rounds_ok(from, reports, p),
        first_pending(p.waiting, p.done) is Some,
    ensures
        rounds_ok(from, reports.push(cs), round(p, cs)),
{
    let k = first_pending(p.waiting, p.done).unwrap();
    lemma_first_pending(p.waiting, p.done);
    let ts = endpoints(cs);
    let seen2 = scheduled_after(p.seen, ts);
    let done2 = p.done.push(p.waiting[k]);
    let rest = p.waiting.skip(k + 1);
    let fresh = seen2.skip(p.seen.len() as int);
    let waiting2 = rest + fresh;
    let q = round(p, cs);
    assert(q.seen == seen2 && q.done == done2 && q.waiting == waiting2);
    lemma_scheduled_after_grows(p.seen, ts);
    assert forall|t: Seq<char>| #[trigger] seen2.contains(t) <==> reported(from, reports.push(cs), t) by {
        law_queued_are_reported(p.seen, cs, t);
        lemma_reported_push(from, reports, cs, t);
    }
    assert forall|t: Seq<char>| p.seen.contains(t) implies #[trigger] seen2.contains(t) by {
        law_queued_are_reported(p.seen, cs, t);
    }
    assert(p.waiting.contains(p.waiting[k]));
    assert(no_repeats(done2)) by {
        assert forall|i: int, j: int| 0 <= i < j < done2.len() implies done2[i] != done2[j] by {
            if j == p.done.len() {
                assert(p.done.contains(p.done[i]));
            }
        }
    }
    assert forall|t: Seq<char>| #[trigger] done2.contains(t) implies p.done.contains(t) || t
        == p.waiting[k] by {
        let i = choose|i: int| 0 <= i < done2.len() && done2[i] == t;
        if i < p.done.len() {
            assert(p.done[i] == t);
        }
    }
    assert forall|t: Seq<char>| #[trigger] p.done.contains(t) implies done2.contains(t) by {
        let i = choose|i: int| 0 <= i < p.done.len() && p.done[i] == t;
        assert(done2[i] == t);
    }
    assert(done2[p.done.len() as int] == p.waiting[k]);
    assert forall|t: Seq<char>| #[trigger] seen2.contains(t) implies done2.contains(t)
        || waiting2.contains(t) by {
        if p.seen.contains(t) {
            if !p.done.contains(t) {
                let j = choose|j: int| 0 <= j < p.waiting.len() && p.waiting[j] == t;
                if j > k {
                    assert(waiting2[j - k - 1] == t);
                }
            }
        } else {
            let i = choose|i: int| 0 <= i < seen2.len() && seen2[i] == t;
            if i < p.seen.len() {
                assert(seen2.take(p.seen.len() as int)[i] == t);
                assert(p.seen[i] == t);
            } else {
                assert(fresh[i - p.seen.len()] == t);
                assert(waiting2[rest.len() + i - p.seen.len()] == t);
            }
        }
    }
    assert forall|t: Seq<char>| #[trigger] waiting2.contains(t) implies seen2.contains(t) by {
        let i = choose|i: int| 0 <= i < waiting2.len() && waiting2[i] == t;
        if i < rest.len() {
            assert(p.waiting[i + k + 1] == t);
            assert(p.waiting.contains(t));
        } else {
            assert(seen2[i - rest.len() + p.seen.len()] == t);
        }
    }
}

/// What holds after every run of rounds.
proof fn lemma_rounds(from: Seq<char>, budget: nat, reports: Seq<Seq<Edge>>)
    requires
        rounds_made(from, budget, reports),
    ensures
        rounds_ok(from, reports, after_rounds(from, reports)),
    decreases reports.len(),
{
    if reports.len() == 0 {
        let p = start(from);
        assert forall|t: Seq<char>| #[trigger] p.seen.contains(t) <==> reported(from, reports, t) by {
            if p.seen.contains(t) {
                let i = choose|i: int| 0 <= i < p.seen.len() && p.seen[i] == t;
            }
            if t == from {
                assert(p.seen[0] == from);
            }
        }
        assert(p.waiting[0] == from);
    } else {
        let prev = reports.drop_last();
        assert forall|i: int| 0 <= i < prev.len() implies focuses_again(
            #[trigger] after_rounds(from, prev.take(i)),
            budget,
        ) by {
            assert(prev.take(i) =~= reports.take(i));
            assert(focuses_again(after_rounds(from, reports.take(i)), budget));
        }
        lemma_rounds(from, budget, prev);
        assert(reports.take(prev.len() as int) =~= prev);
        assert(focuses_again(after_rounds(from, reports.take(prev.len() as int)), budget));
        lemma_round(from, prev, after_rounds(from, prev), reports.last());
        assert(prev.push(reports.last()) =~= reports);
    }
}

/// Over a whole exploration from `from` with `budget` focus calls, in which
/// each report answered a focus call that was asked for: one node is
/// focused per report, within the budget and never twice; the nodes queued
/// are exactly `from` and the ends of the reported edges, so only those
/// are focused; and when no further focus call is asked for (the search
/// ends without a route), the budget is spent or every such node was
/// focused.
pub proof fn law_whole_exploration(from: Seq<char>, budget: nat, reports: Seq<Seq<Edge>>)
    requires
        rounds_made(from, budget, reports),
    ensures
        after_rounds(from, reports).done.len() == reports.len(),
        reports.len() <= budget,
        no_repeats(after_rounds(from, reports).done),
        forall|t: Seq<char>| #[trigger]
            after_rounds(from, reports).seen.contains(t) <==> reported(from, reports, t),
        forall|t: Seq<char>| #[trigger]
            after_rounds(from, reports).done.contains(t) ==> reported(from, reports, t),
        !focuses_again(after_rounds(from, reports), budget) ==> after_rounds(from, reports).done.len()
            >= budget || forall|t: Seq<char>| #[trigger]
            reported(from, reports, t) ==> after_rounds(from, reports).done.contains(t),
{
    lemma_rounds(from, budget, reports);
    let p = after_rounds(from, reports);
    if reports.len() > 0 {
        let i = reports.len() - 1;
        assert(focuses_again(after_rounds(from, reports.take(i)), budget));
        assert forall|x: int| 0 <= x < reports.take(i).len() implies focuses_again(
            #[trigger] after_rounds(from, reports.take(i).take(x)),
            budget,
        ) by {
            assert(reports.take(i).take(x) =~= reports.take(x));
            assert(focuses_again(after_rounds(from, reports.take(x)), budget));
        }
        lemma_rounds(from, budget, reports.take(i));
        assert(reports.take(i) =~= reports.drop_last());
    }
    assert forall|t: Seq<char>| #[trigger] p.done.contains(t) implies reported(from, reports, t) by {
        assert(p.seen.contains(t));
    }
    if !focuses_again(p, budget) && p.done.len() < budget {
        lemma_first_pending(p.waiting, p.done);
        assert forall|t: Seq<char>| #[trigger] reported(from, reports, t) implies p.done.contains(t) by {
            assert(p.seen.contains(t));
            if !p.done.contains(t) {
                let j = choose|j: int| 0 <= j < p.waiting.len() && p.waiting[j] == t;
                assert(p.done.contains(p.waiting[j]));
            }
        }
    }
}

} // verus!
