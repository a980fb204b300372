# plan_path

An MCP server that, given two nodes of a mineplan graph, returns one route
between them with the fewest changes of `edge_name` ("turns"), cut into tasks.

- `src/` is the library, verified with Verus:
  - `graph` — edges, tasks and found paths, and their model: routes (edges may
    be walked either way), turn counts, the cutting of a route into tasks, and
    `answers`, what a search must return.
  - `index`, `search`, `path` — `find_path`: the graph is numbered, a 0-1
    breadth-first search over (node, edge name) states finds the fewest turns,
    and the route found is cut into tasks.  Its contract: no task when both ends
    are the same node; otherwise a route exactly when one exists, with no route
    turning fewer times, and the route returned passes no (node, edge name)
    state twice.  Which of several such routes is returned is fixed too:
    `steps` writes the search out step by step, and `find_path` returns
    `search_answer`, its outcome over the numbering of the edges (start names
    in text order, each node's edges in `edge_id` order).
  - `laws` — what holds of every answer: one more task than turns, neighbouring
    tasks differ in name and meet at the transfer node, routes may be
    reversed without changing their turns, and the order in which the edges
    are given changes neither whether a route is found nor its turns.
  - `explore` — the exploration of mineplan's graph: which node to focus next,
    within a budget of focus calls, and how reported edges are collected; the
    answer after each report is `search_answer` over the edges collected.
  - `rounds` — a whole exploration, round by round: one node focused per
    report, never twice, within the budget; only `from` and the ends of
    reported edges are focused; and when no focus call is left to make, the
    budget is spent or every such node was focused.
  - `protocol`, `mineplan`, `cli` — the decisions of the JSON-RPC server, of
    reading focus replies, and of the command line.
- `app/` is the program: HTTP (axum), the mineplan client (reqwest), JSON.
- `tests/` runs the library on concrete graphs and requests.
