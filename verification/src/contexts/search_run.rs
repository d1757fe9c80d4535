//! The search as a sequence of states: what each expansion of a node makes
//! of the bookkeeping, step by step. Only the choice among the cheapest
//! queued nodes is left open.

use crate::contexts::algorithm_context::AlgorithmType;
use crate::contexts::pathfinding::{
    lemma_hybrid_without_weight_is_dijkstra, priority_of, PathError, RunOutputView,
};
use crate::graph::{is_walk, listed_keys, step_keys, Graph, Step};
use crate::models::edge::Edge;
use crate::models::node::Position;
use vstd::prelude::*;

verus! {

/// A search with all that it depends on.
pub struct Search {
    pub graph: Graph,
    pub start: u32,
    pub goal: u32,
    pub goal_position: Position,
    pub algorithm: AlgorithmType,
    pub heuristic_weight: u32,
    pub use_manhattan: bool,
}

/// What a search keeps account of.
pub struct Bookkeeping {
    /// The least cost found so far of reaching each discovered node.
    pub cost: Map<u32, u64>,
    /// The node from which each discovered node was last reached.
    pub pred: Map<u32, Option<u32>>,
    /// The queued nodes with their priorities.
    pub front: Map<u32, u128>,
}

/// The bookkeeping with which a search begins: the start is discovered at
/// no cost, comes from nowhere and is queued.
pub open spec fn begun(search: Search) -> Bookkeeping {
    Bookkeeping {
        cost: Map::<u32, u64>::empty().insert(search.start, 0),
        pred: Map::<u32, Option<u32>>::empty().insert(search.start, None),
        front: Map::<u32, u128>::empty().insert(search.start, 0),
    }
}

/// The bookkeeping after `edge` has been examined as an edge that leaves
/// `current`: if it shows the first or a cheaper way to its target, the
/// target gets the new cost, is queued with the priority that goes with
/// it, and is recorded as reached from `current`.
pub open spec fn relaxed_one(
    search: Search,
    b: Bookkeeping,
    current: u32,
    edge: Edge,
) -> Bookkeeping {
    let next = edge.to.id;
    let new_cost = (b.cost[current] + edge.length) as u64;
    if !b.cost.contains_key(next) || new_cost < b.cost[next] {
        Bookkeeping {
            cost: b.cost.insert(next, new_cost),
            pred: b.pred.insert(next, Some(current)),
            front: b.front.insert(
                next,
                priority_of(
                    search.algorithm,
                    new_cost,
                    edge.to.position,
                    search.goal_position,
                    search.heuristic_weight,
                    search.use_manhattan,
                ) as u128,
            ),
        }
    } else {
        b
    }
}

/// The bookkeeping after the edges of `edges` have been examined in their
/// order as edges that leave `current`.
pub open spec fn relaxed_all(
    search: Search,
    b: Bookkeeping,
    current: u32,
    edges: Seq<Edge>,
) -> Bookkeeping
    decreases edges.len(),
{
    if edges.len() == 0 {
        b
    } else {
        relaxed_one(
            search,
            relaxed_all(search, b, current, edges.drop_last()),
            current,
            edges.last(),
        )
    }
}

/// `node` is queued, and no queued node has a smaller priority.
pub open spec fn cheapest(b: Bookkeeping, node: u32) -> bool {
    &&& b.front.contains_key(node)
    &&& forall|other: u32| #[trigger]
        b.front.contains_key(other) ==> b.front[node] <= b.front[other]
}

/// The bookkeeping after `current` has left the frontier.
pub open spec fn taken(b: Bookkeeping, current: u32) -> Bookkeeping {
    Bookkeeping { front: b.front.remove(current), ..b }
}

/// Expanding `current` makes `after` of `before`: `current` is a cheapest
/// queued node and not the goal, it leaves the frontier, and its edges are
/// examined.
pub open spec fn expands(
    search: Search,
    before: Bookkeeping,
    current: u32,
    after: Bookkeeping,
) -> bool {
    &&& cheapest(before, current)
    &&& current != search.goal
    &&& search.graph.contains_key(current)
    &&& after == relaxed_all(search, taken(before, current), current, search.graph[current])
}

/// `states` are the states that a search goes through as it expands the
/// nodes of `expanded` one after the other.
pub open spec fn is_run(search: Search, states: Seq<Bookkeeping>, expanded: Seq<u32>) -> bool {
    &&& states.len() == expanded.len() + 1
    &&& states[0] == begun(search)
    &&& forall|i: int|
        0 <= i < expanded.len() ==> expands(
            search,
            states[i],
            #[trigger] expanded[i],
            states[i + 1],
        )
}

/// `walk` goes along the recorded predecessors: each of its steps leaves
/// the node from which its target was last reached.
pub open spec fn follows(pred: Map<u32, Option<u32>>, walk: Seq<Step>) -> bool {
    forall|i: int|
        0 <= i < walk.len() ==> pred.contains_key((#[trigger] walk[i]).to) && pred[walk[i].to]
            == Some(walk[i].from)
}

/// A search that has come to the state `last` by expanding the nodes of
/// `expanded` ends there with `result`.
///
/// It ends with a path when the goal is a cheapest queued node: the path is
/// the one along the recorded predecessors, its cost the one recorded for
/// the goal. It ends without one when a cheapest queued node has no entry
/// in the graph, or when no node is queued.
pub open spec fn ends_with(
    search: Search,
    mark_passed_edges: bool,
    last: Bookkeeping,
    expanded: Seq<u32>,
    result: Result<RunOutputView, PathError>,
) -> bool {
    match result {
        Ok(out) => {
            &&& cheapest(last, search.goal)
            &&& last.cost.contains_key(search.goal)
            &&& out.total_cost == last.cost[search.goal]
            &&& exists|walk: Seq<Step>|
                is_walk(search.graph, walk, search.start, search.goal) && follows(last.pred, walk)
                    && out.selected_edges == #[trigger] step_keys(walk)
            &&& out.passed_edges == if mark_passed_edges {
                listed_keys(search.graph, expanded.to_set())
            } else {
                Set::<u64>::empty()
            }
        },
        Err(PathError::MissingNeighbors { node }) => {
            &&& cheapest(last, node)
            &&& node != search.goal
            &&& !search.graph.contains_key(node)
        },
        Err(PathError::NoPath) => last.front.dom() == Set::<u32>::empty(),
    }
}

/// Some run of the search ends with `result`.
pub open spec fn runs_to(
    search: Search,
    mark_passed_edges: bool,
    result: Result<RunOutputView, PathError>,
) -> bool {
    exists|states: Seq<Bookkeeping>, expanded: Seq<u32>|
        is_run(search, states, expanded) && #[trigger] ends_with(
            search,
            mark_passed_edges,
            states[states.len() - 1],
            expanded,
            result,
        )
}

/// A run goes on with the expansion of one more node.
pub proof fn lemma_run_push(
    search: Search,
    states: Seq<Bookkeeping>,
    expanded: Seq<u32>,
    current: u32,
    after: Bookkeeping,
)
    requires
        is_run(search, states, expanded),
        expands(search, states[states.len() - 1], current, after),
    ensures
        is_run(search, states.push(after), expanded.push(current)),
{
    let longer = states.push(after);
    let more = expanded.push(current);
    assert forall|i: int| 0 <= i < more.len() implies expands(
        search,
        longer[i],
        #[trigger] more[i],
        longer[i + 1],
    ) by {
        if i < expanded.len() {
            assert(more[i] == expanded[i]);
            assert(longer[i] == states[i]);
            assert(longer[i + 1] == states[i + 1]);
        }
    }
}

/// Two searches give every node the same priority.
pub open spec fn same_priorities(a: Search, b: Search) -> bool {
    forall|new_cost: u64, next: Position| #[trigger]
        priority_of(
            a.algorithm,
            new_cost,
            next,
            a.goal_position,
            a.heuristic_weight,
            a.use_manhattan,
        ) == priority_of(
            b.algorithm,
            new_cost,
            next,
            b.goal_position,
            b.heuristic_weight,
            b.use_manhattan,
        )
}

/// Two searches of one graph for the same two nodes.
pub open spec fn same_task(a: Search, b: Search) -> bool {
    a.graph == b.graph && a.start == b.start && a.goal == b.goal
}

/// Searches that give every node the same priority examine edges alike.
pub proof fn lemma_relaxed_all_alike(
    a: Search,
    b: Search,
    book: Bookkeeping,
    current: u32,
    edges: Seq<Edge>,
)
    requires
        same_priorities(a, b),
    ensures
        relaxed_all(a, book, current, edges) == relaxed_all(b, book, current, edges),
    decreases edges.len(),
{
    if edges.len() > 0 {
        lemma_relaxed_all_alike(a, b, book, current, edges.drop_last());
        let sofar = relaxed_all(a, book, current, edges.drop_last());
        let new_cost = (sofar.cost[current] + edges.last().length) as u64;
        assert(priority_of(
            a.algorithm,
            new_cost,
            edges.last().to.position,
            a.goal_position,
            a.heuristic_weight,
            a.use_manhattan,
        ) == priority_of(
            b.algorithm,
            new_cost,
            edges.last().to.position,
            b.goal_position,
            b.heuristic_weight,
            b.use_manhattan,
        ));
    }
}

/// Searches that give every node the same priority run alike.
proof fn lemma_runs_alike(a: Search, b: Search, states: Seq<Bookkeeping>, expanded: Seq<u32>)
    requires
        same_task(a, b),
        same_priorities(a, b),
        is_run(a, states, expanded),
    ensures
        is_run(b, states, expanded),
{
    assert forall|i: int| 0 <= i < expanded.len() implies expands(
        b,
        states[i],
        #[trigger] expanded[i],
        states[i + 1],
    ) by {
        assert(expands(a, states[i], expanded[i], states[i + 1]));
        lemma_relaxed_all_alike(
            a,
            b,
            taken(states[i], expanded[i]),
            expanded[i],
            a.graph[expanded[i]],
        );
    }
}

/// What a search of a graph for two nodes may end with depends on the
/// priorities that it gives alone: two searches that give every node the
/// same priority have the same runs and end with the same results.
pub proof fn lemma_priorities_decide(
    a: Search,
    b: Search,
    mark_passed_edges: bool,
    result: Result<RunOutputView, PathError>,
)
    requires
        same_task(a, b),
        same_priorities(a, b),
    ensures
        runs_to(a, mark_passed_edges, result) <==> runs_to(b, mark_passed_edges, result),
{
    if runs_to(a, mark_passed_edges, result) {
        let (states, expanded) = choose|states: Seq<Bookkeeping>, expanded: Seq<u32>|
            is_run(a, states, expanded) && #[trigger] ends_with(
                a,
                mark_passed_edges,
                states[states.len() - 1],
                expanded,
                result,
            );
        lemma_runs_alike(a, b, states, expanded);
        assert(ends_with(b, mark_passed_edges, states[states.len() - 1], expanded, result));
    }
    if runs_to(b, mark_passed_edges, result) {
        let (states, expanded) = choose|states: Seq<Bookkeeping>, expanded: Seq<u32>|
            is_run(b, states, expanded) && #[trigger] ends_with(
                b,
                mark_passed_edges,
                states[states.len() - 1],
                expanded,
                result,
            );
        lemma_runs_alike(b, a, states, expanded);
        assert(ends_with(a, mark_passed_edges, states[states.len() - 1], expanded, result));
    }
}

/// With a heuristic weight of zero the hybrid search behaves as
/// Dijkstra's search does: the runs of the one are the runs of the other,
/// and they end with the same results.
pub proof fn lemma_hybrid_without_weight_runs_as_dijkstra(
    search: Search,
    mark_passed_edges: bool,
    result: Result<RunOutputView, PathError>,
)
    requires
        search.algorithm == AlgorithmType::HybridAStar,
        search.heuristic_weight == 0,
    ensures
        runs_to(search, mark_passed_edges, result) <==> runs_to(
            Search { algorithm: AlgorithmType::Dijkstra, ..search },
            mark_passed_edges,
            result,
        ),
{
    let other = Search { algorithm: AlgorithmType::Dijkstra, ..search };
    assert forall|new_cost: u64, next: Position| #[trigger]
        priority_of(
            search.algorithm,
            new_cost,
            next,
            search.goal_position,
            search.heuristic_weight,
            search.use_manhattan,
        ) == priority_of(
            other.algorithm,
            new_cost,
            next,
            other.goal_position,
            other.heuristic_weight,
            other.use_manhattan,
        ) by {
        lemma_hybrid_without_weight_is_dijkstra(
            new_cost,
            next,
            search.goal_position,
            search.use_manhattan,
        );
    }
    lemma_priorities_decide(search, other, mark_passed_edges, result);
}

/// Dijkstra's search makes no use of the heuristic: not of its weight, not
/// of its metric, not of where the goal lies.
pub proof fn lemma_dijkstra_ignores_the_heuristic(
    search: Search,
    heuristic_weight: u32,
    use_manhattan: bool,
    goal_position: Position,
    mark_passed_edges: bool,
    result: Result<RunOutputView, PathError>,
)
    requires
        search.algorithm == AlgorithmType::Dijkstra,
    ensures
        runs_to(search, mark_passed_edges, result) <==> runs_to(
            Search { heuristic_weight, use_manhattan, goal_position, ..search },
            mark_passed_edges,
            result,
        ),
{
    lemma_priorities_decide(
        search,
        Search { heuristic_weight, use_manhattan, goal_position, ..search },
        mark_passed_edges,
        result,
    );
}

/// The search that goes by the heuristic alone makes no use of the
/// heuristic weight.
pub proof fn lemma_a_star_ignores_the_weight(
    search: Search,
    heuristic_weight: u32,
    mark_passed_edges: bool,
    result: Result<RunOutputView, PathError>,
)
    requires
        search.algorithm == AlgorithmType::AStar,
    ensures
        runs_to(search, mark_passed_edges, result) <==> runs_to(
            Search { heuristic_weight, ..search },
            mark_passed_edges,
            result,
        ),
{
    lemma_priorities_decide(
        search,
        Search { heuristic_weight, ..search },
        mark_passed_edges,
        result,
    );
}

} // verus!
