use plan_path::explore::{ExploreAction, Exploration};
use plan_path::Edge;

fn edge(id: i64, name: &str, previous: &str, next: &str) -> Edge {
    Edge {
        edge_id: id,
        edge_name: name.into(),
        previous: previous.into(),
        next: next.into(),
    }
}

fn focus_node(action: ExploreAction) -> String {
    match action {
        ExploreAction::Focus(node) => node,
        _ => panic!("expected a focus call"),
    }
}

#[test]
fn equal_endpoints_are_found_without_any_focus_call() {
    let mut exploration = Exploration::new("A", "A", 50);
    match exploration.next_action() {
        ExploreAction::Found(path) => {
            assert_eq!(path.turns, 0);
            assert!(path.tasks.is_empty());
        }
        _ => panic!("expected an answer"),
    }
}

#[test]
fn first_focus_is_on_the_start_node() {
    let mut exploration = Exploration::new("A", "C", 50);
    assert_eq!(focus_node(exploration.next_action()), "A");
}

#[test]
fn route_is_found_once_the_edges_are_seen() {
    let mut exploration = Exploration::new("A", "C", 50);
    assert_eq!(focus_node(exploration.next_action()), "A");
    assert!(exploration.observe(vec![edge(1, "x", "A", "B")]).is_none());
    assert_eq!(focus_node(exploration.next_action()), "B");
    let path = exploration
        .observe(vec![edge(1, "x", "A", "B"), edge(2, "x", "B", "C")])
        .unwrap();
    assert_eq!(path.turns, 0);
    assert_eq!(path.tasks[0].sequence, ["A", "B", "C"]);
}

#[test]
fn nodes_are_focused_breadth_first_and_once() {
    let mut exploration = Exploration::new("A", "Z", 50);
    assert_eq!(focus_node(exploration.next_action()), "A");
    assert!(exploration
        .observe(vec![edge(1, "x", "A", "B"), edge(2, "y", "C", "A")])
        .is_none());
    assert_eq!(focus_node(exploration.next_action()), "B");
    assert!(exploration.observe(vec![edge(1, "x", "A", "B")]).is_none());
    assert_eq!(focus_node(exploration.next_action()), "C");
    assert!(exploration.observe(vec![edge(2, "y", "C", "A")]).is_none());
    assert!(matches!(exploration.next_action(), ExploreAction::NotFound));
}

#[test]
fn budget_limits_focus_calls() {
    let mut exploration = Exploration::new("A", "Z", 1);
    assert_eq!(focus_node(exploration.next_action()), "A");
    assert!(exploration.observe(vec![edge(1, "x", "A", "B")]).is_none());
    assert!(matches!(exploration.next_action(), ExploreAction::NotFound));
}

#[test]
fn zero_budget_finds_nothing() {
    let mut exploration = Exploration::new("A", "B", 0);
    assert!(matches!(exploration.next_action(), ExploreAction::NotFound));
}

#[test]
fn first_report_of_an_edge_id_is_kept() {
    let mut exploration = Exploration::new("A", "C", 50);
    assert_eq!(focus_node(exploration.next_action()), "A");
    // edge 7 is first reported between A and B, later (stale) between A and C.
    assert!(exploration
        .observe(vec![edge(7, "x", "A", "B"), edge(7, "x", "A", "C")])
        .is_none());
}

#[test]
fn edges_are_searched_by_rising_edge_id() {
    let mut exploration = Exploration::new("A", "C", 50);
    assert_eq!(focus_node(exploration.next_action()), "A");
    let path = exploration
        .observe(vec![edge(5, "y", "B", "C"), edge(3, "x", "A", "B")])
        .unwrap();
    assert_eq!(path.turns, 1);
    assert_eq!(path.tasks.len(), 2);
    assert_eq!(path.tasks[0].edge_name, "x");
    assert_eq!(path.tasks[1].edge_name, "y");
}

#[test]
fn not_found_after_every_reported_node_was_focused() {
    let mut exploration = Exploration::new("A", "Z", 10);
    assert_eq!(focus_node(exploration.next_action()), "A");
    assert!(exploration.observe(vec![edge(1, "x", "A", "B")]).is_none());
    assert_eq!(focus_node(exploration.next_action()), "B");
    assert!(exploration.observe(vec![edge(1, "x", "A", "B")]).is_none());
    // A and B, the only nodes reported, are both focused: nothing is left.
    assert!(matches!(exploration.next_action(), ExploreAction::NotFound));
}

#[test]
fn only_reported_nodes_are_focused_within_the_budget() {
    let mut exploration = Exploration::new("A", "Z", 2);
    assert_eq!(focus_node(exploration.next_action()), "A");
    assert!(exploration
        .observe(vec![edge(1, "x", "A", "B"), edge(2, "x", "C", "A")])
        .is_none());
    assert_eq!(focus_node(exploration.next_action()), "B");
    assert!(exploration.observe(vec![edge(3, "y", "B", "D")]).is_none());
    // Two focus calls were made: the budget is spent though C and D wait.
    assert!(matches!(exploration.next_action(), ExploreAction::NotFound));
}

#[test]
fn answer_is_the_search_over_the_collected_edges() {
    let mut exploration = Exploration::new("A", "D", 5);
    assert_eq!(focus_node(exploration.next_action()), "A");
    assert!(exploration
        .observe(vec![edge(3, "r", "A", "B"), edge(1, "r", "A", "C")])
        .is_none());
    assert_eq!(focus_node(exploration.next_action()), "B");
    let found = exploration
        .observe(vec![edge(4, "r", "B", "D"), edge(3, "r", "A", "B")])
        .unwrap();
    let direct = plan_path::find_path(
        &[
            edge(1, "r", "A", "C"),
            edge(3, "r", "A", "B"),
            edge(4, "r", "B", "D"),
        ],
        "A",
        "D",
    )
    .unwrap();
    assert_eq!(found, direct);
    assert_eq!(found.tasks[0].sequence, ["A", "B", "D"]);
}
