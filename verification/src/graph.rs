//! The plan graph: edges between named nodes, routes through them, and the
//! tasks a route is cut into.
//!
//! An edge may be walked in either direction.  A *turn* is a change of
//! `edge_name` between two consecutive edges of a route.  Consecutive edges
//! with one `edge_name` form one task, whose `sequence` lists the nodes passed,
//! in order; the node where a route changes names ends one task and starts
//! the next.
use vstd::prelude::*;

verus! {

/// An edge of the plan, as mineplan reports it.
#[derive(Debug, Clone, PartialEq, Eq)]
pub struct Edge {
    pub edge_id: i64,
    pub edge_name: String,
    pub previous: String,
    pub next: String,
}

/// A run of consecutive edges that share one `edge_name`.
#[derive(Debug, Clone, PartialEq, Eq)]
pub struct TaskSegment {
    pub edge_name: String,
    pub sequence: Vec<String>,
}

/// A route that was found, cut into tasks.
#[derive(Debug, Clone, PartialEq, Eq)]
pub struct FoundPath {
    pub turns: usize,
    pub tasks: Vec<TaskSegment>,
}

/// What a task is: the name it runs on and the nodes it passes.
pub struct Segment {
    pub name: Seq<char>,
    pub nodes: Seq<Seq<char>>,
}

/// What a found path is.
pub struct PathView {
    pub turns: nat,
    pub tasks: Seq<Segment>,
}

/// The text of each string, in order.
pub open spec fn texts(v: Seq<String>) -> Seq<Seq<char>> {
    v.map_values(|s: String| s@)
}

impl View for TaskSegment {
    type V = Segment;

    open spec fn view(&self) -> Segment {
        Segment { name: self.edge_name@, nodes: texts(self.sequence@) }
    }
}

/// The segment that each task stands for.
pub open spec fn segment_views(v: Seq<TaskSegment>) -> Seq<Segment> {
    v.map_values(|t: TaskSegment| t@)
}

impl View for FoundPath {
    type V = PathView;

    open spec fn view(&self) -> PathView {
        PathView { turns: self.turns as nat, tasks: segment_views(self.tasks@) }
    }
}

/// `e` joins `a` and `b`, in one direction or the other.
pub open spec fn links(e: Edge, a: Seq<char>, b: Seq<char>) -> bool {
    ||| (e.previous@ == a && e.next@ == b)
    ||| (e.next@ == a && e.previous@ == b)
}

/// `steps[i]` is the index in `edges` of the edge that leads from `nodes[i]`
/// to `nodes[i + 1]`; the route has at least one edge, starts at `from` and
/// ends at `to`.
pub open spec fn is_route(
    edges: Seq<Edge>,
    from: Seq<char>,
    to: Seq<char>,
    steps: Seq<int>,
    nodes: Seq<Seq<char>>,
) -> bool {
    &&& steps.len() >= 1
    &&& nodes.len() == steps.len() + 1
    &&& nodes[0] == from
    &&& nodes.last() == to
    &&& forall|i: int|
        0 <= i < steps.len() ==> 0 <= #[trigger] steps[i] < edges.len() && links(
            edges[steps[i]],
            nodes[i],
            nodes[i + 1],
        )
}

/// The names of the edges a route takes, in order.
pub open spec fn route_names(edges: Seq<Edge>, steps: Seq<int>) -> Seq<Seq<char>> {
    steps.map_values(|i: int| edges[i].edge_name@)
}

/// How many times consecutive names differ.
pub open spec fn turn_count(names: Seq<Seq<char>>) -> nat
    decreases names.len(),
{
    if names.len() <= 1 {
        0
    } else {
        turn_count(names.drop_last()) + if names.last() != names[names.len() - 2] {
            1nat
        } else {
            0nat
        }
    }
}

/// Some route leads from `from` to `to`.
pub open spec fn reachable(edges: Seq<Edge>, from: Seq<char>, to: Seq<char>) -> bool {
    exists|steps: Seq<int>, nodes: Seq<Seq<char>>| #[trigger] is_route(edges, from, to, steps, nodes)
}

/// No route from `from` to `to` turns fewer than `turns` times.
pub open spec fn no_fewer_turns(edges: Seq<Edge>, from: Seq<char>, to: Seq<char>, turns: nat) -> bool {
    forall|steps: Seq<int>, nodes: Seq<Seq<char>>|
        #[trigger] is_route(edges, from, to, steps, nodes) ==> turns <= turn_count(
            route_names(edges, steps),
        )
}

/// The tasks of a route with edge names `names` through `nodes`: each edge
/// extends the last task when it has that task's name, and starts a new task
/// from the node where it begins otherwise.
pub open spec fn segments(names: Seq<Seq<char>>, nodes: Seq<Seq<char>>) -> Seq<Segment>
    decreases names.len(),
{
    if names.len() == 0 {
        Seq::empty()
    } else {
        let k = names.len() - 1;
        let before = segments(names.drop_last(), nodes.drop_last());
        if before.len() > 0 && before.last().name == names[k] {
            before.update(
                before.len() - 1,
                Segment { name: names[k], nodes: before.last().nodes.push(nodes[k + 1]) },
            )
        } else {
            before.push(Segment { name: names[k], nodes: seq![nodes[k], nodes[k + 1]] })
        }
    }
}

/// The states a route passes: each node with the name of the edge that led
/// to it, the first node with the name of the first edge.
pub open spec fn route_states(
    edges: Seq<Edge>,
    steps: Seq<int>,
    nodes: Seq<Seq<char>>,
) -> Seq<(Seq<char>, Seq<char>)> {
    Seq::new(
        nodes.len(),
        |i: int|
            (
                nodes[i],
                edges[steps[if i == 0 {
                    0
                } else {
                    i - 1
                }]].edge_name@,
            ),
    )
}

/// The route passes no state (node and current edge name) twice.
pub open spec fn passes_states_once(edges: Seq<Edge>, steps: Seq<int>, nodes: Seq<Seq<char>>) -> bool {
    let st = route_states(edges, steps, nodes);
    forall|i: int, j: int| 0 <= i < j < st.len() ==> st[i] != st[j]
}

/// `p` is the route `steps` through `nodes`, cut into tasks, with its
/// turns; the route passes no state twice.
pub open spec fn describes(
    p: PathView,
    edges: Seq<Edge>,
    steps: Seq<int>,
    nodes: Seq<Seq<char>>,
) -> bool {
    &&& p.turns == turn_count(route_names(edges, steps))
    &&& p.tasks == segments(route_names(edges, steps), nodes)
    &&& passes_states_once(edges, steps, nodes)
}

/// What a search from `from` to `to` over `edges` answers: no task when the
/// two are the same node; otherwise a route with the fewest turns that
/// passes no state twice, cut into tasks, exactly when some route exists.
pub open spec fn answers(
    edges: Seq<Edge>,
    from: Seq<char>,
    to: Seq<char>,
    r: Option<PathView>,
) -> bool {
    if from == to {
        r == Some(PathView { turns: 0, tasks: Seq::empty() })
    } else {
        &&& (r is Some <==> reachable(edges, from, to))
        &&& r matches Some(p) ==> {
            &&& no_fewer_turns(edges, from, to, p.turns)
            &&& exists|steps: Seq<int>, nodes: Seq<Seq<char>>|
                #[trigger] is_route(edges, from, to, steps, nodes) && describes(p, edges, steps, nodes)
        }
    }
}

/// The view of an optional found path.
pub open spec fn path_view(r: Option<FoundPath>) -> Option<PathView> {
    match r {
        Some(p) => Some(p@),
        None => None,
    }
}

} // verus!
