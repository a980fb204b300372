//! What holds of every answer of the search, stated over the model of
//! `graph`.
use vstd::prelude::*;

use crate::graph::{
    answers, describes, is_route, links, no_fewer_turns, reachable, route_names, segments,
    turn_count, Edge, PathView, Segment,
};

verus! {

/// `segs` cuts the route with edge names `names` through `nodes` into
/// tasks: one more task than turns; neighbouring tasks differ in name; each
/// task passes at least two nodes; each task ends where the next begins; the
/// first begins at the first node, the last ends at the last node, on the
/// last name.
pub open spec fn cut_well(names: Seq<Seq<char>>, nodes: Seq<Seq<char>>, segs: Seq<Segment>) -> bool {
    &&& segs.len() == turn_count(names) + 1
    &&& forall|i: int| 0 <= i < segs.len() ==> (#[trigger] segs[i]).nodes.len() >= 2
    &&& forall|i: int|
        0 <= i < segs.len() - 1 ==> (#[trigger] segs[i]).name != segs[i + 1].name
            && segs[i].nodes.last() == segs[i + 1].nodes[0]
    &&& segs[0].nodes[0] == nodes[0]
    &&& segs.last().nodes.last() == nodes.last()
    &&& segs.last().name == names.last()
}

/// The tasks of a route of at least one edge are cut well.
pub proof fn law_segments_cut_well(names: Seq<Seq<char>>, nodes: Seq<Seq<char>>)
    requires
        names.len() >= 1,
        nodes.len() == names.len() + 1,
    ensures
        cut_well(names, nodes, segments(names, nodes)),
    decreases names.len(),
{
    let k = names.len() - 1;
    let segs = segments(names, nodes);
    if names.len() == 1 {
        let before = segments(names.drop_last(), nodes.drop_last());
        assert(before.len() == 0);
        assert(segs =~= seq![Segment { name: names[0], nodes: seq![nodes[0], nodes[1]] }]);
    } else {
        let names1 = names.drop_last();
        let nodes1 = nodes.drop_last();
        law_segments_cut_well(names1, nodes1);
        let before = segments(names1, nodes1);
        assert(before.last().name == names[k - 1]);
        assert(before.last().nodes.last() == nodes[k]);
        assert(names.last() == names[k] && names[names.len() - 2] == names[k - 1]);
        if names[k] == names[k - 1] {
            let m = before.len() - 1;
            assert forall|i: int| 0 <= i < segs.len() - 1 implies (#[trigger] segs[i]).name
                != segs[i + 1].name && segs[i].nodes.last() == segs[i + 1].nodes[0] by {
                assert(segs[i] == before[i]);
                if i + 1 < m {
                    assert(segs[i + 1] == before[i + 1]);
                } else {
                    assert(segs[i + 1].nodes[0] == before[i + 1].nodes[0]);
                }
            }
            assert forall|i: int| 0 <= i < segs.len() implies (#[trigger] segs[i]).nodes.len() >= 2 by {
                if i < m {
                    assert(segs[i] == before[i]);
                }
            }
            if m == 0 {
                assert(segs[0].nodes[0] == before[0].nodes[0]);
            }
        } else {
            let m = before.len();
            assert forall|i: int| 0 <= i < segs.len() - 1 implies (#[trigger] segs[i]).name
                != segs[i + 1].name && segs[i].nodes.last() == segs[i + 1].nodes[0] by {
                assert(segs[i] == before[i]);
                if i + 1 < m {
                    assert(segs[i + 1] == before[i + 1]);
                }
            }
            assert forall|i: int| 0 <= i < segs.len() implies (#[trigger] segs[i]).nodes.len() >= 2 by {
                if i < m {
                    assert(segs[i] == before[i]);
                }
            }
            assert(segs[0] == before[0]);
        }
    }
}

/// The nodes that the tasks `segs` pass, in order, each node where one task
/// ends and the next begins counted once.
pub open spec fn nodes_passed(segs: Seq<Segment>) -> Seq<Seq<char>>
    decreases segs.len(),
{
    if segs.len() == 0 {
        Seq::empty()
    } else if segs.len() == 1 {
        segs[0].nodes
    } else {
        nodes_passed(segs.drop_last()) + segs.last().nodes.skip(1)
    }
}

/// The name of each edge that the tasks `segs` cover, in order: a task
/// through `n` nodes covers `n - 1` edges of its name.
pub open spec fn names_passed(segs: Seq<Segment>) -> Seq<Seq<char>>
    decreases segs.len(),
{
    if segs.len() == 0 {
        Seq::empty()
    } else {
        names_passed(segs.drop_last()) + Seq::new(
            (segs.last().nodes.len() - 1) as nat,
            |i: int| segs.last().name,
        )
    }
}

/// Cutting a route into tasks loses no node and no edge: read one after the
/// other, the tasks pass exactly the nodes of the route, in order (a node
/// where the name changes counted once), and cover exactly its edges, each
/// under its own name; so the tasks hold, together, one node more per task
/// than the route has edges.
pub proof fn law_segments_pass_every_node(names: Seq<Seq<char>>, nodes: Seq<Seq<char>>)
    requires
        names.len() >= 1,
        nodes.len() == names.len() + 1,
    ensures
        nodes_passed(segments(names, nodes)) == nodes,
        names_passed(segments(names, nodes)) == names,
    decreases names.len(),
{
    let k = names.len() - 1;
    let segs = segments(names, nodes);
    law_segments_cut_well(names, nodes);
    if names.len() == 1 {
        assert(segs =~= seq![Segment { name: names[0], nodes: seq![nodes[0], nodes[1]] }]);
        assert(nodes =~= seq![nodes[0], nodes[1]]);
        assert(segs.drop_last() =~= Seq::<Segment>::empty());
        assert(names_passed(segs.drop_last()) == Seq::<Seq<char>>::empty());
        assert(segs.last().nodes.len() == 2);
        assert(names_passed(segs) =~= Seq::<Seq<char>>::empty() + Seq::new(1, |i: int| names[0]));
        assert(names_passed(segs) =~= names);
    } else {
        let names1 = names.drop_last();
        let nodes1 = nodes.drop_last();
        law_segments_pass_every_node(names1, nodes1);
        law_segments_cut_well(names1, nodes1);
        let before = segments(names1, nodes1);
        assert(names.last() == names[k] && names[names.len() - 2] == names[k - 1]);
        assert(before.last().name == names[k - 1]);
        if names[k] == names[k - 1] {
            let m = before.len() - 1;
            let last = before.last();
            let last2 = Segment { name: names[k], nodes: last.nodes.push(nodes[k + 1]) };
            assert(segs == before.update(m, last2));
            assert(segs.drop_last() =~= before.drop_last());
            assert(segs.last() == last2);
            assert(before[m].nodes.len() >= 2);
            if before.len() == 1 {
                assert(nodes_passed(before) == last.nodes);
                assert(nodes_passed(segs) =~= nodes);
            } else {
                assert(last2.nodes.skip(1) =~= last.nodes.skip(1).push(nodes[k + 1]));
                assert(nodes_passed(segs) =~= nodes_passed(before).push(nodes[k + 1]));
                assert(nodes =~= nodes1.push(nodes[k + 1]));
            }
            assert(Seq::new((last2.nodes.len() - 1) as nat, |i: int| last2.name) =~= Seq::new(
                (last.nodes.len() - 1) as nat,
                |i: int| last.name,
            ).push(names[k]));
            assert(names_passed(segs) =~= names_passed(before).push(names[k]));
            assert(names =~= names1.push(names[k]));
        } else {
            let s2 = Segment { name: names[k], nodes: seq![nodes[k], nodes[k + 1]] };
            assert(segs == before.push(s2));
            assert(segs.drop_last() =~= before);
            assert(before.len() >= 1);
            assert(s2.nodes.skip(1) =~= seq![nodes[k + 1]]);
            assert(nodes_passed(segs) =~= nodes_passed(before).push(nodes[k + 1]));
            assert(nodes =~= nodes1.push(nodes[k + 1]));
            assert(Seq::new((s2.nodes.len() - 1) as nat, |i: int| s2.name) =~= seq![names[k]]);
            assert(names_passed(segs) =~= names_passed(before).push(names[k]));
            assert(names =~= names1.push(names[k]));
        }
    }
}

/// The tasks of a found path pass exactly the nodes of a route from `from`
/// to `to`, in order, and cover exactly its edges, each under the name of
/// its task: no node of the route is left out of a task's sequence.
pub proof fn law_found_path_passes_every_node(
    edges: Seq<Edge>,
    from: Seq<char>,
    to: Seq<char>,
    p: PathView,
)
    requires
        from != to,
        answers(edges, from, to, Some(p)),
    ensures
        exists|steps: Seq<int>, nodes: Seq<Seq<char>>|
            #[trigger] is_route(edges, from, to, steps, nodes) && nodes_passed(p.tasks) == nodes
                && names_passed(p.tasks) == route_names(edges, steps),
{
    let (steps, nodes) = choose|steps: Seq<int>, nodes: Seq<Seq<char>>|
        #[trigger] is_route(edges, from, to, steps, nodes) && describes(p, edges, steps, nodes);
    law_segments_pass_every_node(route_names(edges, steps), nodes);
}

/// A found path has one more task than turns; neighbouring tasks differ in
/// `edge_name` and share the node where the route changes names; every task
/// passes at least two nodes; the first task starts at `from` and the last
/// ends at `to`.
pub proof fn law_found_path_is_cut_well(
    edges: Seq<Edge>,
    from: Seq<char>,
    to: Seq<char>,
    p: PathView,
)
    requires
        from != to,
        answers(edges, from, to, Some(p)),
    ensures
        p.tasks.len() == p.turns + 1,
        forall|i: int| 0 <= i < p.tasks.len() ==> (#[trigger] p.tasks[i]).nodes.len() >= 2,
        forall|i: int|
            0 <= i < p.tasks.len() - 1 ==> (#[trigger] p.tasks[i]).name != p.tasks[i + 1].name
                && p.tasks[i].nodes.last() == p.tasks[i + 1].nodes[0],
        p.tasks[0].nodes[0] == from,
        p.tasks.last().nodes.last() == to,
{
    let (steps, nodes) = choose|steps: Seq<int>, nodes: Seq<Seq<char>>|
        #[trigger] is_route(edges, from, to, steps, nodes) && describes(p, edges, steps, nodes);
    law_segments_cut_well(route_names(edges, steps), nodes);
}

/// Putting a name in front adds a turn when it differs from the first.
proof fn lemma_turns_prepend(x: Seq<char>, s: Seq<Seq<char>>)
    requires
        s.len() >= 1,
    ensures
        turn_count(seq![x] + s) == turn_count(s) + if x != s[0] {
            1nat
        } else {
            0nat
        },
    decreases s.len(),
{
    let t = seq![x] + s;
    if s.len() == 1 {
        assert(t.drop_last() =~= seq![x]);
        assert(turn_count(seq![x]) == 0);
        assert(turn_count(s) == 0);
        assert(t.last() == s[0] && t[t.len() - 2] == x);
    } else {
        lemma_turns_prepend(x, s.drop_last());
        assert(t.drop_last() =~= seq![x] + s.drop_last());
        assert(t.last() == s.last() && t[t.len() - 2] == s[s.len() - 2]);
        assert(s.drop_last()[0] == s[0]);
        assert(turn_count(s) == turn_count(s.drop_last()) + if s.last() != s[s.len() - 2] {
            1nat
        } else {
            0nat
        });
    }
}

/// A sequence of names read backwards turns as often.
proof fn lemma_turns_reverse(s: Seq<Seq<char>>)
    ensures
        turn_count(s.reverse()) == turn_count(s),
    decreases s.len(),
{
    if s.len() >= 2 {
        lemma_turns_reverse(s.drop_last());
        assert(s.reverse() =~= seq![s.last()] + s.drop_last().reverse());
        lemma_turns_prepend(s.last(), s.drop_last().reverse());
        assert(s.drop_last().reverse()[0] == s[s.len() - 2]);
    } else if s.len() == 1 {
        assert(s.reverse() =~= s);
    } else {
        assert(s.reverse() =~= s);
    }
}

/// A route walked backwards is a route the other way, with as many turns.
pub proof fn law_route_reversed(
    edges: Seq<Edge>,
    from: Seq<char>,
    to: Seq<char>,
    steps: Seq<int>,
    nodes: Seq<Seq<char>>,
)
    requires
        is_route(edges, from, to, steps, nodes),
    ensures
        is_route(edges, to, from, steps.reverse(), nodes.reverse()),
        turn_count(route_names(edges, steps.reverse())) == turn_count(route_names(edges, steps)),
{
    let k = steps.len();
    let rs = steps.reverse();
    let rn = nodes.reverse();
    assert forall|i: int| 0 <= i < rs.len() implies 0 <= #[trigger] rs[i] < edges.len() && links(
        edges[rs[i]],
        rn[i],
        rn[i + 1],
    ) by {
        let j = k - 1 - i;
        assert(rs[i] == steps[j]);
        assert(rn[i] == nodes[j + 1]);
        assert(rn[i + 1] == nodes[j]);
        assert(links(edges[steps[j]], nodes[j], nodes[j + 1]));
    }
    assert(rn[0] == nodes.last());
    assert(rn.last() == nodes[0]);
    assert(route_names(edges, rs) =~= route_names(edges, steps).reverse());
    lemma_turns_reverse(route_names(edges, steps));
}

/// Edges go both ways: a route exists from `a` to `b` exactly when one
/// exists from `b` to `a`, and the fewest turns are the same both ways.
pub proof fn law_direction_free(
    edges: Seq<Edge>,
    a: Seq<char>,
    b: Seq<char>,
    r1: Option<PathView>,
    r2: Option<PathView>,
)
    requires
        answers(edges, a, b, r1),
        answers(edges, b, a, r2),
    ensures
        r1 is Some <==> r2 is Some,
        r1 is Some && r2 is Some ==> r1.unwrap().turns == r2.unwrap().turns,
{
    if a != b {
        if reachable(edges, a, b) {
            let (s, n) = choose|s: Seq<int>, n: Seq<Seq<char>>| #[trigger]
                is_route(edges, a, b, s, n);
            law_route_reversed(edges, a, b, s, n);
        }
        if reachable(edges, b, a) {
            let (s, n) = choose|s: Seq<int>, n: Seq<Seq<char>>| #[trigger]
                is_route(edges, b, a, s, n);
            law_route_reversed(edges, b, a, s, n);
        }
        if r1 is Some && r2 is Some {
            let p1 = r1.unwrap();
            let p2 = r2.unwrap();
            let (s1, n1) = choose|s: Seq<int>, n: Seq<Seq<char>>|
                #[trigger] is_route(edges, a, b, s, n) && describes(p1, edges, s, n);
            let (s2, n2) = choose|s: Seq<int>, n: Seq<Seq<char>>|
                #[trigger] is_route(edges, b, a, s, n) && describes(p2, edges, s, n);
            law_route_reversed(edges, a, b, s1, n1);
            law_route_reversed(edges, b, a, s2, n2);
            assert(no_fewer_turns(edges, a, b, p1.turns));
            assert(no_fewer_turns(edges, b, a, p2.turns));
            assert(is_route(edges, b, a, s1.reverse(), n1.reverse()));
            assert(is_route(edges, a, b, s2.reverse(), n2.reverse()));
        }
    }
}

/// Every edge of `e1` is also an edge of `e2`.
pub open spec fn edges_within(e1: Seq<Edge>, e2: Seq<Edge>) -> bool {
    forall|i: int| 0 <= i < e1.len() ==> exists|j: int| 0 <= j < e2.len() && e2[j] == #[trigger] e1[i]
}

/// A route over `e1` is a route over `e2` with the same edge names when
/// every edge of `e1` is an edge of `e2`.
proof fn lemma_route_transfer(
    e1: Seq<Edge>,
    e2: Seq<Edge>,
    a: Seq<char>,
    b: Seq<char>,
    steps: Seq<int>,
    nodes: Seq<Seq<char>>,
)
    requires
        edges_within(e1, e2),
        is_route(e1, a, b, steps, nodes),
    ensures
        exists|s2: Seq<int>|
            #[trigger] is_route(e2, a, b, s2, nodes) && route_names(e2, s2) == route_names(
                e1,
                steps,
            ),
{
    let s2 = Seq::new(
        steps.len(),
        |i: int| choose|j: int| 0 <= j < e2.len() && e2[j] == e1[steps[i]],
    );
    assert forall|i: int| 0 <= i < s2.len() implies 0 <= #[trigger] s2[i] < e2.len() && e2[s2[i]]
        == e1[steps[i]] by {
        assert(0 <= steps[i] < e1.len());
        assert(exists|j: int| 0 <= j < e2.len() && e2[j] == e1[steps[i]]);
    }
    assert forall|i: int| 0 <= i < s2.len() implies 0 <= #[trigger] s2[i] < e2.len() && links(
        e2[s2[i]],
        nodes[i],
        nodes[i + 1],
    ) by {
        assert(0 <= steps[i] < e1.len());
        assert(e2[s2[i]] == e1[steps[i]]);
    }
    assert(is_route(e2, a, b, s2, nodes));
    assert(route_names(e2, s2) =~= route_names(e1, steps));
}

/// The order in which the edges are given does not matter: over two lists
/// that hold the same edges, a search finds a route in both or in neither,
/// with as many turns.
pub proof fn law_edge_order_free(
    e1: Seq<Edge>,
    e2: Seq<Edge>,
    a: Seq<char>,
    b: Seq<char>,
    r1: Option<PathView>,
    r2: Option<PathView>,
)
    requires
        edges_within(e1, e2),
        edges_within(e2, e1),
        answers(e1, a, b, r1),
        answers(e2, a, b, r2),
    ensures
        r1 is Some <==> r2 is Some,
        r1 is Some && r2 is Some ==> r1.unwrap().turns == r2.unwrap().turns,
{
    if a != b {
        if reachable(e1, a, b) {
            let (s, n) = choose|s: Seq<int>, n: Seq<Seq<char>>| #[trigger] is_route(e1, a, b, s, n);
            lemma_route_transfer(e1, e2, a, b, s, n);
        }
        if reachable(e2, a, b) {
            let (s, n) = choose|s: Seq<int>, n: Seq<Seq<char>>| #[trigger] is_route(e2, a, b, s, n);
            lemma_route_transfer(e2, e1, a, b, s, n);
        }
        if r1 is Some && r2 is Some {
            let p1 = r1.unwrap();
            let p2 = r2.unwrap();
            let (s1, n1) = choose|s: Seq<int>, n: Seq<Seq<char>>|
                #[trigger] is_route(e1, a, b, s, n) && describes(p1, e1, s, n);
            let (s2, n2) = choose|s: Seq<int>, n: Seq<Seq<char>>|
                #[trigger] is_route(e2, a, b, s, n) && describes(p2, e2, s, n);
            lemma_route_transfer(e1, e2, a, b, s1, n1);
            lemma_route_transfer(e2, e1, a, b, s2, n2);
            let t1 = choose|t: Seq<int>| #[trigger] is_route(e2, a, b, t, n1) && route_names(e2, t)
                == route_names(e1, s1);
            let t2 = choose|t: Seq<int>| #[trigger] is_route(e1, a, b, t, n2) && route_names(e1, t)
                == route_names(e2, s2);
            assert(no_fewer_turns(e1, a, b, p1.turns));
            assert(no_fewer_turns(e2, a, b, p2.turns));
            assert(p2.turns <= turn_count(route_names(e2, t1)));
            assert(p1.turns <= turn_count(route_names(e1, t2)));
        }
    }
}

} // verus!
