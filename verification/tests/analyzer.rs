use plan_path::{find_path, Edge, TaskSegment};

fn edge(id: i64, name: &str, previous: &str, next: &str) -> Edge {
    Edge {
        edge_id: id,
        edge_name: name.into(),
        previous: previous.into(),
        next: next.into(),
    }
}

#[test]
fn compresses_same_named_edges_into_one_task() {
    let result = find_path(
        &[
            edge(1, "x", "A", "B"),
            edge(2, "x", "B", "C"),
            edge(3, "y", "C", "D"),
            edge(4, "y", "D", "E"),
            edge(5, "z", "E", "F"),
        ],
        "A",
        "F",
    )
    .unwrap();
    assert_eq!(result.turns, 2);
    assert_eq!(result.tasks.len(), 3);
    assert_eq!(result.tasks[0].sequence, ["A", "B", "C"]);
    assert_eq!(result.tasks[1].sequence, ["C", "D", "E"]);
    assert_eq!(result.tasks[2].sequence, ["E", "F"]);
}

#[test]
fn traverses_ordered_edges_in_either_direction() {
    let result = find_path(&[edge(1, "x", "A", "B")], "B", "A").unwrap();
    assert_eq!(result.turns, 0);
    assert_eq!(result.tasks[0].sequence, ["B", "A"]);
}

#[test]
fn chooses_fewer_turns_over_fewer_edges() {
    let result = find_path(
        &[
            edge(1, "x", "A", "B"),
            edge(2, "y", "B", "D"),
            edge(3, "road", "A", "C"),
            edge(4, "road", "C", "E"),
            edge(5, "road", "E", "D"),
        ],
        "A",
        "D",
    )
    .unwrap();
    assert_eq!(result.turns, 0);
    assert_eq!(
        result.tasks,
        [TaskSegment {
            edge_name: "road".into(),
            sequence: vec!["A".into(), "C".into(), "E".into(), "D".into()],
        }]
    );
}

#[test]
fn same_node_needs_no_task() {
    assert_eq!(find_path(&[], "A", "A").unwrap().tasks, []);
}

#[test]
fn same_node_has_no_turns_even_without_edges() {
    let result = find_path(&[], "Z", "Z").unwrap();
    assert_eq!(result.turns, 0);
    assert!(result.tasks.is_empty());
}

#[test]
fn unknown_start_finds_nothing() {
    assert_eq!(find_path(&[edge(1, "x", "A", "B")], "Q", "B"), None);
}

#[test]
fn unknown_goal_finds_nothing() {
    assert_eq!(find_path(&[edge(1, "x", "A", "B")], "A", "Q"), None);
}

#[test]
fn disconnected_parts_find_nothing() {
    let edges = [edge(1, "x", "A", "B"), edge(2, "y", "C", "D")];
    assert_eq!(find_path(&edges, "A", "D"), None);
    assert_eq!(find_path(&edges, "D", "A"), None);
}

#[test]
fn each_turn_starts_a_task_at_the_transfer_node() {
    let result = find_path(
        &[
            edge(1, "x", "A", "B"),
            edge(2, "y", "B", "C"),
            edge(3, "x", "C", "D"),
        ],
        "A",
        "D",
    )
    .unwrap();
    assert_eq!(result.turns, 2);
    assert_eq!(result.tasks.len(), result.turns + 1);
    assert_eq!(result.tasks[0].edge_name, "x");
    assert_eq!(result.tasks[1].edge_name, "y");
    assert_eq!(result.tasks[2].edge_name, "x");
    assert_eq!(result.tasks[0].sequence, ["A", "B"]);
    assert_eq!(result.tasks[1].sequence, ["B", "C"]);
    assert_eq!(result.tasks[2].sequence, ["C", "D"]);
}

#[test]
fn both_directions_take_as_many_turns() {
    let edges = [
        edge(1, "x", "A", "B"),
        edge(2, "y", "B", "C"),
        edge(3, "y", "C", "D"),
        edge(4, "z", "A", "D"),
    ];
    let forth = find_path(&edges, "A", "C").unwrap();
    let back = find_path(&edges, "C", "A").unwrap();
    assert_eq!(forth.turns, back.turns);
    assert_eq!(forth.turns, 1);
}

#[test]
fn route_may_pass_through_its_start_name_again() {
    // A-B by x, B-C by y, C-D by x; a direct z edge A-D costs no turn.
    let edges = [
        edge(1, "x", "A", "B"),
        edge(2, "y", "B", "C"),
        edge(3, "x", "C", "D"),
        edge(9, "z", "D", "A"),
    ];
    let result = find_path(&edges, "A", "D").unwrap();
    assert_eq!(result.turns, 0);
    assert_eq!(
        result.tasks,
        [TaskSegment {
            edge_name: "z".into(),
            sequence: vec!["A".into(), "D".into()],
        }]
    );
}

#[test]
fn self_loops_and_parallel_edges_are_harmless() {
    let edges = [
        edge(1, "x", "A", "A"),
        edge(2, "x", "A", "B"),
        edge(3, "y", "A", "B"),
    ];
    let result = find_path(&edges, "A", "B").unwrap();
    assert_eq!(result.turns, 0);
    assert_eq!(result.tasks.len(), 1);
    assert_eq!(result.tasks[0].sequence, ["A", "B"]);
}

#[test]
fn order_of_edges_does_not_change_the_answer() {
    let edges = [
        edge(1, "x", "A", "B"),
        edge(2, "y", "B", "C"),
        edge(3, "y", "A", "D"),
        edge(4, "y", "D", "C"),
        edge(5, "x", "B", "C"),
    ];
    let mut reversed = edges.clone();
    reversed.reverse();
    let forth = find_path(&edges, "A", "C").unwrap();
    let other = find_path(&reversed, "A", "C").unwrap();
    assert_eq!(forth, other);
    assert_eq!(forth.turns, 0);
}

#[test]
fn readme_example_takes_the_single_name_route() {
    let edges = [
        edge(1, "x", "A", "B"),
        edge(2, "y", "A", "B"),
        edge(3, "y", "B", "C"),
    ];
    assert_eq!(
        find_path(&edges, "A", "C"),
        Some(plan_path::FoundPath {
            turns: 0,
            tasks: vec![TaskSegment {
                edge_name: "y".into(),
                sequence: vec!["A".into(), "B".into(), "C".into()],
            }],
        })
    );
}

#[test]
fn no_state_is_passed_twice() {
    let result = find_path(&[edge(1, "x", "A", "B")], "B", "A").unwrap();
    assert_eq!(result.tasks.len(), 1);
    assert_eq!(result.tasks[0].sequence, ["B", "A"]);
}

#[test]
fn ties_are_broken_by_edge_id_not_by_input_order() {
    let edges = [
        edge(1, "r", "A", "C"),
        edge(2, "r", "C", "D"),
        edge(3, "r", "A", "B"),
        edge(4, "r", "B", "D"),
    ];
    let expected = Some(plan_path::FoundPath {
        turns: 0,
        tasks: vec![TaskSegment {
            edge_name: "r".into(),
            sequence: vec!["A".into(), "B".into(), "D".into()],
        }],
    });
    assert_eq!(find_path(&edges, "A", "D"), expected);
    let shuffled = [
        edges[3].clone(),
        edges[0].clone(),
        edges[2].clone(),
        edges[1].clone(),
    ];
    assert_eq!(find_path(&shuffled, "A", "D"), expected);
    assert_eq!(find_path(&edges, "A", "D"), find_path(&edges, "A", "D"));
}

#[test]
fn other_edge_ids_pick_the_other_route() {
    let edges = [
        edge(3, "r", "A", "C"),
        edge(4, "r", "C", "D"),
        edge(1, "r", "A", "B"),
        edge(2, "r", "B", "D"),
    ];
    let result = find_path(&edges, "A", "D").unwrap();
    assert_eq!(result.turns, 0);
    assert_eq!(result.tasks[0].sequence, ["A", "C", "D"]);
}

#[test]
fn start_names_are_tried_in_text_order() {
    // Both names reach D without a turn.  The start state under "a" comes
    // first in text order, so it is expanded first, and its own edge
    // reaches D at once, although edge 1 comes first by id.
    let edges = [edge(1, "b", "A", "D"), edge(2, "a", "A", "D")];
    let result = find_path(&edges, "A", "D").unwrap();
    assert_eq!(result.turns, 0);
    assert_eq!(result.tasks[0].edge_name, "a");
}
