//! The search engine: three ways of ordering the frontier of one
//! uniform-cost search, and the reconstruction of the path it finds.

use crate::contexts::algorithm_context::AlgorithmType;
use crate::contexts::search_state::{
    arrives, before, improved, initial, inv, lemma_current, lemma_drained, lemma_expanded,
    lemma_expanded_node, lemma_goal_queued, lemma_improved, lemma_initial, lemma_least_cost,
    lemma_link, lemma_passed_over, lemma_popped, lemma_queued, popped, potential, Query,
    SearchState,
};
use crate::contexts::search_run::{
    begun, cheapest, ends_with, expands, follows, is_run, lemma_run_push, relaxed_all,
    relaxed_one, runs_to, taken, Bookkeeping, Search,
};
use crate::frontier::{
    frontier_entries, frontier_is_empty, frontier_new, frontier_pop, frontier_push,
};
use crate::graph::{
    avoids, distinct_targets, explorable, graph_of, is_walk, lemma_walk_cost_prepend,
    lemma_walk_prepend, listed_keys, reachable, step_at, step_keys, walk_cost, Graph, Step,
};
use crate::models::edge::{edge_key, lemma_edge_key_injective, pack_key, Edge};
use crate::models::node::{Node, Position};
use crate::utils::distance::{euclidean, euclidean_distance, manhattan, manhattan_distance};
use std::collections::{HashMap, HashSet};
use vstd::prelude::*;
use vstd::std_specs::hash::*;

verus! {

/// The factor by which a distance is scaled to be comparable with a cost,
/// for a heuristic weight of 1.0. Found by trial and error.
pub const MULTIPLICITY_BASE: u64 = 13_000;

/// Heuristic weights are given in tenths: this value is the weight 1.0.
pub const WEIGHT_ONE: u32 = 10;

/// Why a search found no path.
#[derive(PartialEq, Eq, Structural, Copy, Clone, Debug)]
pub enum PathError {
    /// The search came to `node`, which has no entry in the adjacency
    /// mapping.
    MissingNeighbors { node: u32 },
    /// The goal cannot be reached from the start.
    NoPath,
}

/// What a search found.
pub struct RunOutput {
    /// The keys of the edges of the path found.
    pub selected_edges: HashSet<u64>,
    /// The keys of the edges examined during the search, if they were to
    /// be recorded.
    pub passed_edges: HashSet<u64>,
    /// The cost recorded for the goal.
    pub total_cost: u64,
}

/// A search result as mathematical values.
pub struct RunOutputView {
    pub selected_edges: Set<u64>,
    pub passed_edges: Set<u64>,
    pub total_cost: u64,
}

impl View for RunOutput {
    type V = RunOutputView;

    open spec fn view(&self) -> RunOutputView {
        RunOutputView {
            selected_edges: self.selected_edges@,
            passed_edges: self.passed_edges@,
            total_cost: self.total_cost,
        }
    }
}

/// The distance between two positions in the chosen metric.
pub open spec fn distance_between(a: Position, b: Position, use_manhattan: bool) -> int {
    if use_manhattan {
        manhattan(a, b)
    } else {
        euclidean(a, b)
    }
}

/// The weight that a multiplier stands for, in tenths: 1.0 where none is
/// given.
pub open spec fn weight_tenths(multiplier: Option<u32>) -> int {
    match multiplier {
        Some(tenths) => tenths as int,
        None => WEIGHT_ONE as int,
    }
}

/// The estimate of the cost from `a` to `b`: the distance between them,
/// scaled by the base factor and by the weight.
pub open spec fn heuristic_value(
    a: Position,
    b: Position,
    multiplier: Option<u32>,
    use_manhattan: bool,
) -> int {
    MULTIPLICITY_BASE * weight_tenths(multiplier) * distance_between(a, b, use_manhattan)
        / (WEIGHT_ONE as int)
}

/// The priority with which a node is queued: the smaller, the sooner it is
/// expanded.
pub open spec fn priority_of(
    algorithm: AlgorithmType,
    new_cost: u64,
    next: Position,
    goal: Position,
    weight: u32,
    use_manhattan: bool,
) -> int {
    match algorithm {
        AlgorithmType::AStar => heuristic_value(next, goal, None, use_manhattan),
        AlgorithmType::HybridAStar => new_cost + heuristic_value(
            next,
            goal,
            Some(weight),
            use_manhattan,
        ),
        AlgorithmType::Dijkstra => new_cost as int,
    }
}

/// The frontier is ordered by the cost so far alone, so that the search
/// finds a path of least cost.
pub open spec fn orders_by_cost(algorithm: AlgorithmType, weight: u32) -> bool {
    algorithm == AlgorithmType::Dijkstra || (algorithm == AlgorithmType::HybridAStar && weight
        == 0)
}

/// Without weight the heuristic is zero.
pub proof fn lemma_heuristic_without_weight(a: Position, b: Position, use_manhattan: bool)
    ensures
        heuristic_value(a, b, Some(0), use_manhattan) == 0,
{
    let d = distance_between(a, b, use_manhattan);
    assert(MULTIPLICITY_BASE * 0 * d == 0) by (nonlinear_arith);
}

/// With a heuristic weight of zero the hybrid search gives every node the
/// priority that Dijkstra's search gives it.
pub proof fn lemma_hybrid_without_weight_is_dijkstra(
    new_cost: u64,
    next: Position,
    goal: Position,
    use_manhattan: bool,
)
    ensures
        priority_of(AlgorithmType::HybridAStar, new_cost, next, goal, 0, use_manhattan)
            == priority_of(AlgorithmType::Dijkstra, new_cost, next, goal, 0, use_manhattan),
        orders_by_cost(AlgorithmType::HybridAStar, 0),
{
    lemma_heuristic_without_weight(next, goal, use_manhattan);
}

/// The distance between `a` and `b` in the chosen metric.
pub fn distance(a: &Position, b: &Position, use_manhattan: bool) -> (d: u64)
    ensures
        d == distance_between(*a, *b, use_manhattan),
        d <= 0x1_ffff_ffff,
{
    if use_manhattan {
        manhattan_distance(a, b)
    } else {
        euclidean_distance(a, b)
    }
}

/// The estimate of the cost from `a` to `b`. The weight is given in tenths;
/// without one it is 1.0.
pub fn heuristic(a: &Node, b: &Node, multiplier: Option<u32>, use_manhattan: bool) -> (h: u128)
    ensures
        h == heuristic_value(a.position, b.position, multiplier, use_manhattan),
        h <= 0xffff_ffff_ffff_ffff_ffff,
{
    let tenths: u128 = match multiplier {
        Some(tenths) => tenths as u128,
        None => WEIGHT_ONE as u128,
    };
    let mult: u128 = tenths * MULTIPLICITY_BASE as u128;
    let d: u128 = distance(&a.position, &b.position, use_manhattan) as u128;
    assert(mult * d <= 0xffff_ffff_ffff_ffff_ffff && mult * d == MULTIPLICITY_BASE * tenths * d)
        by (nonlinear_arith)
        requires
            0 <= d <= 0x1_ffff_ffff,
            0 <= tenths <= 0xffff_ffff,
            mult == tenths * 13_000,
            MULTIPLICITY_BASE == 13_000,
    ;
    mult * d / WEIGHT_ONE as u128
}

/// The priority with which `next` is queued when it has been reached at
/// `new_cost`.
pub fn priority(
    algorithm_type: AlgorithmType,
    new_cost: u64,
    next: &Node,
    end: &Node,
    heuristic_weight: u32,
    use_manhattan: bool,
) -> (p: u128)
    ensures
        p == priority_of(
            algorithm_type,
            new_cost,
            next.position,
            end.position,
            heuristic_weight,
            use_manhattan,
        ),
        orders_by_cost(algorithm_type, heuristic_weight) ==> p == new_cost,
{
    proof {
        lemma_heuristic_without_weight(next.position, end.position, use_manhattan);
    }
    match algorithm_type {
        AlgorithmType::AStar => heuristic(next, end, None, use_manhattan),
        AlgorithmType::HybridAStar => new_cost as u128 + heuristic(
            next,
            end,
            Some(heuristic_weight),
            use_manhattan,
        ),
        AlgorithmType::Dijkstra => new_cost as u128,
    }
}

/// What a proof keeps account of beside a search's own bookkeeping.
pub struct Trail {
    /// When each node's cost was last set.
    pub stamp: Map<u32, nat>,
    /// A time later than every stamp.
    pub clock: nat,
    /// The nodes whose outgoing edges have been examined.
    pub expanded: Set<u32>,
}

/// The state of a search, from what its collections hold and what the
/// proof keeps beside them.
pub open spec fn state_of(
    cost: Map<u32, u64>,
    pred: Map<u32, Option<u32>>,
    front: Map<u32, u128>,
    trail: Trail,
) -> SearchState {
    SearchState {
        cost,
        pred,
        front,
        stamp: trail.stamp,
        clock: trail.clock,
        expanded: trail.expanded,
    }
}

/// `walk` is a path that the search `s` has found from the start to the
/// goal: it repeats no node, costs no more than what is recorded for the
/// goal, and leaves expanded nodes only.
pub open spec fn is_route(s: SearchState, q: Query, walk: Seq<Step>) -> bool {
    &&& is_walk(q.graph, walk, q.start, q.goal)
    &&& distinct_targets(walk)
    &&& walk_cost(walk) <= s.cost[q.goal]
    &&& forall|i: int| 0 <= i < walk.len() ==> s.expanded.contains((#[trigger] walk[i]).from)
}

/// The keys of a walk with one more step at its start.
pub proof fn lemma_step_keys_prepend(step: Step, walk: Seq<Step>)
    ensures
        step_keys(seq![step] + walk) == step_keys(walk).insert(edge_key(step.from, step.to)),
{
    let longer = seq![step] + walk;
    assert forall|key: u64| step_keys(longer).contains(key) implies step_keys(walk).insert(
        edge_key(step.from, step.to),
    ).contains(key) by {
        let i = choose|i: int|
            0 <= i < longer.len() && key == edge_key((#[trigger] longer[i]).from, longer[i].to);
        if i > 0 {
            assert(longer[i] == walk[i - 1]);
        }
    }
    assert forall|key: u64|
        step_keys(walk).insert(edge_key(step.from, step.to)).contains(key) implies step_keys(
        longer,
    ).contains(key) by {
        if key == edge_key(step.from, step.to) {
            assert(longer[0] == step);
        } else {
            let i = choose|i: int|
                0 <= i < walk.len() && key == edge_key((#[trigger] walk[i]).from, walk[i].to);
            assert(longer[i + 1] == walk[i]);
        }
    }
    assert(step_keys(longer) =~= step_keys(walk).insert(edge_key(step.from, step.to)));
}

/// A step to a node at which no step of `walk` arrives has a key that no
/// step of `walk` has.
pub proof fn lemma_fresh_key(step: Step, walk: Seq<Step>)
    requires
        forall|i: int| 0 <= i < walk.len() ==> (#[trigger] walk[i]).to != step.to,
    ensures
        !step_keys(walk).contains(edge_key(step.from, step.to)),
{
    assert forall|i: int| 0 <= i < walk.len() implies edge_key(
        (#[trigger] walk[i]).from,
        walk[i].to,
    ) != edge_key(step.from, step.to) by {
        lemma_edge_key_injective(walk[i].from, walk[i].to, step.from, step.to);
    }
}

/// Walks back from the goal to the start along the recorded predecessors
/// and collects the key of each hop.
///
/// The ghost result is the walk itself, from the start to the goal.
fn reconstruct_path(
    came_from: &HashMap<u32, Option<u32>>,
    start: &Node,
    end: &Node,
    Ghost(s): Ghost<SearchState>,
    Ghost(q): Ghost<Query>,
) -> (found: (HashSet<u64>, Ghost<Seq<Step>>))
    requires
        inv(s, q, None),
        came_from@ == s.pred,
        q.start == start.id,
        q.goal == end.id,
        s.cost.contains_key(q.goal),
    ensures
        is_route(s, q, found.1@),
        follows(s.pred, found.1@),
        found.0@ == step_keys(found.1@),
        found.0@.finite(),
        found.0@.len() == found.1@.len(),
{
    broadcast use group_hash_axioms;

    let mut selected_edges: HashSet<u64> = HashSet::new();
    let mut current: u32 = end.id;
    let ghost mut walk: Seq<Step> = Seq::empty();
    while current != start.id
        invariant
            inv(s, q, None),
            came_from@ == s.pred,
            q.start == start.id,
            q.goal == end.id,
            s.cost.contains_key(q.goal),
            s.cost.contains_key(current),
            is_walk(q.graph, walk, current, q.goal),
            distinct_targets(walk),
            s.cost[current] + walk_cost(walk) <= s.cost[q.goal],
            forall|i: int| 0 <= i < walk.len() ==> s.expanded.contains((#[trigger] walk[i]).from),
            forall|i: int| 0 <= i < walk.len() ==> before(s, current, (#[trigger] walk[i]).to),
            follows(s.pred, walk),
            selected_edges@ == step_keys(walk),
            selected_edges@.finite(),
            selected_edges@.len() == walk.len(),
        decreases s.cost[current], s.stamp[current],
    {
        proof {
            lemma_link(s, q, current);
        }
        let previous: u32 = came_from.get(&current).unwrap().unwrap();
        proof {
            let length = choose|length: u32| #[trigger] arrives(s, q, previous, current, length);
            let step = Step { from: previous, to: current, length };
            let longer = seq![step] + walk;
            lemma_walk_prepend(q.graph, step, walk, q.goal);
            lemma_walk_cost_prepend(step, walk);
            lemma_step_keys_prepend(step, walk);
            lemma_fresh_key(step, walk);
            assert forall|i: int| 0 <= i < longer.len() implies s.expanded.contains(
                (#[trigger] longer[i]).from,
            ) by {
                if i > 0 {
                    assert(longer[i] == walk[i - 1]);
                }
            }
            assert forall|i: int| 0 <= i < longer.len() implies before(
                s,
                previous,
                (#[trigger] longer[i]).to,
            ) by {
                if i > 0 {
                    assert(longer[i] == walk[i - 1]);
                }
            }
            assert forall|i: int| 0 <= i < longer.len() implies s.pred.contains_key(
                (#[trigger] longer[i]).to,
            ) && s.pred[longer[i].to] == Some(longer[i].from) by {
                if i > 0 {
                    assert(longer[i] == walk[i - 1]);
                }
            }
            assert forall|i: int, j: int|
                0 <= i < j < longer.len() implies (#[trigger] longer[i]).to != (
            #[trigger] longer[j]).to by {
                assert(longer[j] == walk[j - 1]);
                if i > 0 {
                    assert(longer[i] == walk[i - 1]);
                }
            }
            walk = longer;
        }
        selected_edges.insert(pack_key(previous, current));
        current = previous;
    }
    (selected_edges, Ghost(walk))
}

/// What a successful search returns, with the path `walk` that it found
/// and the set `visited` of the nodes that it expanded.
pub open spec fn found(
    g: Graph,
    start: u32,
    goal: u32,
    mark_passed_edges: bool,
    by_cost: bool,
    out: RunOutputView,
    walk: Seq<Step>,
    visited: Set<u32>,
) -> bool {
    &&& is_walk(g, walk, start, goal)
    &&& distinct_targets(walk)
    &&& out.selected_edges == step_keys(walk)
    &&& out.selected_edges.finite()
    &&& out.selected_edges.len() == walk.len()
    &&& walk_cost(walk) <= out.total_cost
    &&& by_cost ==> walk_cost(walk) == out.total_cost
    &&& by_cost ==> forall|other: Seq<Step>| #[trigger]
        is_walk(g, other, start, goal) ==> out.total_cost <= walk_cost(other)
    &&& out.passed_edges == if mark_passed_edges {
        listed_keys(g, visited)
    } else {
        Set::<u64>::empty()
    }
    &&& !visited.contains(goal)
    &&& forall|node: u32| #[trigger]
        visited.contains(node) ==> g.contains_key(node) && explorable(g, start, goal, node)
    &&& forall|i: int| 0 <= i < walk.len() ==> visited.contains((#[trigger] walk[i]).from)
}

/// What a search returns on a graph `g`, for each of its three outcomes.
pub open spec fn search_outcome(
    g: Graph,
    start: u32,
    goal: u32,
    mark_passed_edges: bool,
    by_cost: bool,
    result: Result<RunOutputView, PathError>,
) -> bool {
    match result {
        Ok(out) => exists|walk: Seq<Step>, visited: Set<u32>|
            found(g, start, goal, mark_passed_edges, by_cost, out, walk, visited),
        Err(PathError::NoPath) => {
            &&& !reachable(g, start, goal)
            &&& forall|node: u32| #[trigger] reachable(g, start, node) ==> g.contains_key(node)
        },
        Err(PathError::MissingNeighbors { node }) => {
            &&& node != goal
            &&& explorable(g, start, goal, node)
            &&& !g.contains_key(node)
        },
    }
}

/// Two searches of one graph for the same two nodes agree, whatever their
/// toggles: if one finds that there is no path, so does the other, and if
/// both order the frontier by cost, they find the same cost.
pub proof fn lemma_outcomes_agree(
    g: Graph,
    start: u32,
    goal: u32,
    mark_first: bool,
    by_cost_first: bool,
    first: Result<RunOutputView, PathError>,
    mark_second: bool,
    by_cost_second: bool,
    second: Result<RunOutputView, PathError>,
)
    requires
        search_outcome(g, start, goal, mark_first, by_cost_first, first),
        search_outcome(g, start, goal, mark_second, by_cost_second, second),
    ensures
        first == Err::<RunOutputView, PathError>(PathError::NoPath) ==> second == first,
        by_cost_first && by_cost_second ==> (first matches Ok(a) ==> (second matches Ok(b)
            ==> a.total_cost == b.total_cost)),
{
    if first == Err::<RunOutputView, PathError>(PathError::NoPath) {
        match second {
            Ok(out) => {
                let (walk, visited) = choose|walk: Seq<Step>, visited: Set<u32>|
                    found(g, start, goal, mark_second, by_cost_second, out, walk, visited);
                assert(is_walk(g, walk, start, goal));
            },
            Err(PathError::MissingNeighbors { node }) => {
                let walk = choose|walk: Seq<Step>|
                    is_walk(g, walk, start, node) && avoids(walk, goal);
                assert(is_walk(g, walk, start, node));
                assert(reachable(g, start, node));
            },
            Err(PathError::NoPath) => {},
        }
    }
    if by_cost_first && by_cost_second {
        if let Ok(a) = first {
            if let Ok(b) = second {
                let (walk_a, visited_a) = choose|walk: Seq<Step>, visited: Set<u32>|
                    found(g, start, goal, mark_first, by_cost_first, a, walk, visited);
                let (walk_b, visited_b) = choose|walk: Seq<Step>, visited: Set<u32>|
                    found(g, start, goal, mark_second, by_cost_second, b, walk, visited);
                assert(is_walk(g, walk_a, start, goal));
                assert(is_walk(g, walk_b, start, goal));
            }
        }
    }
}

/// A search finds a path wherever there is one and every node that it may
/// come to on its way has an entry; it finds none where there is none.
pub proof fn lemma_success_is_owed(
    g: Graph,
    start: u32,
    goal: u32,
    mark_passed_edges: bool,
    by_cost: bool,
    result: Result<RunOutputView, PathError>,
)
    requires
        search_outcome(g, start, goal, mark_passed_edges, by_cost, result),
    ensures
        !reachable(g, start, goal) ==> result is Err,
        reachable(g, start, goal) && (forall|node: u32| #[trigger]
            explorable(g, start, goal, node) && node != goal ==> g.contains_key(node))
            ==> result is Ok,
        (forall|node: u32| #[trigger]
            explorable(g, start, goal, node) && node != goal ==> g.contains_key(node))
            ==> !(result matches Err(PathError::MissingNeighbors { .. })),
{
    if let Ok(out) = result {
        let (walk, visited) = choose|walk: Seq<Step>, visited: Set<u32>|
            found(g, start, goal, mark_passed_edges, by_cost, out, walk, visited);
        assert(is_walk(g, walk, start, goal));
    }
}

/// With a heuristic weight of zero the hybrid search finds the cost that
/// Dijkstra's search finds.
pub proof fn lemma_hybrid_without_weight_finds_dijkstras_cost(
    g: Graph,
    start: u32,
    goal: u32,
    mark_dijkstra: bool,
    dijkstra: RunOutputView,
    mark_hybrid: bool,
    hybrid: RunOutputView,
    weight: u32,
)
    requires
        search_outcome(
            g,
            start,
            goal,
            mark_dijkstra,
            orders_by_cost(AlgorithmType::Dijkstra, weight),
            Ok(dijkstra),
        ),
        search_outcome(
            g,
            start,
            goal,
            mark_hybrid,
            orders_by_cost(AlgorithmType::HybridAStar, 0),
            Ok(hybrid),
        ),
    ensures
        dijkstra.total_cost == hybrid.total_cost,
{
    lemma_outcomes_agree(
        g,
        start,
        goal,
        mark_dijkstra,
        true,
        Ok(dijkstra),
        mark_hybrid,
        true,
        Ok(hybrid),
    );
}

/// A search result with its output as mathematical values.
pub open spec fn outcome_view(result: Result<RunOutput, PathError>) -> Result<
    RunOutputView,
    PathError,
> {
    match result {
        Ok(out) => Ok(out@),
        Err(e) => Err(e),
    }
}

/// The search that a call for these arguments makes.
pub open spec fn search_for(
    neighbors: Map<u32, Vec<Edge>>,
    start: Node,
    end: Node,
    algorithm_type: AlgorithmType,
    heuristic_weight: u32,
    use_manhattan: bool,
) -> Search {
    Search {
        graph: graph_of(neighbors),
        start: start.id,
        goal: end.id,
        goal_position: end.position,
        algorithm: algorithm_type,
        heuristic_weight,
        use_manhattan,
    }
}

/// The bookkeeping of a search, from what its collections hold.
pub open spec fn book_of(
    cost: Map<u32, u64>,
    pred: Map<u32, Option<u32>>,
    front: Map<u32, u128>,
) -> Bookkeeping {
    Bookkeeping { cost, pred, front }
}

/// The keys of the first `count` edges of `edges`.
pub open spec fn seen_keys(edges: Seq<Edge>, count: int) -> Set<u64> {
    Set::new(|key: u64| exists|j: int| 0 <= j < count && key == (#[trigger] edges[j]).spec_key())
}

/// Expanding one more node adds the keys of its edges to those listed.
pub proof fn lemma_listed_keys_insert(g: Graph, nodes: Set<u32>, node: u32)
    requires
        g.contains_key(node),
    ensures
        listed_keys(g, nodes.insert(node)) == listed_keys(g, nodes).union(
            seen_keys(g[node], g[node].len() as int),
        ),
{
    let left = listed_keys(g, nodes.insert(node));
    let right = listed_keys(g, nodes).union(seen_keys(g[node], g[node].len() as int));
    assert forall|key: u64| left.contains(key) implies right.contains(key) by {
        let (n, index) = choose|n: u32, index: int|
            nodes.insert(node).contains(n) && g.contains_key(n) && 0 <= index < g[n].len() && key
                == (#[trigger] g[n][index]).spec_key();
        if n != node {
            assert(listed_keys(g, nodes).contains(key));
        }
    }
    assert forall|key: u64| right.contains(key) implies left.contains(key) by {
        if listed_keys(g, nodes).contains(key) {
            let (n, index) = choose|n: u32, index: int|
                nodes.contains(n) && g.contains_key(n) && 0 <= index < g[n].len() && key == (
                #[trigger] g[n][index]).spec_key();
            assert(nodes.insert(node).contains(n));
        } else {
            let j = choose|j: int|
                0 <= j < g[node].len() && key == (#[trigger] g[node][j]).spec_key();
            assert(nodes.insert(node).contains(node));
        }
    }
    assert(left =~= right);
}

/// Searches `neighbors` for a path from `start` to `end`.
///
/// The search expands the queued node of least priority until that node is
/// `end`. A node is queued, or queued again, whenever a cheaper way to it is
/// found; `algorithm_type` decides its priority. `heuristic_weight`, in
/// tenths, counts for [`AlgorithmType::HybridAStar`] only, and
/// `use_manhattan` for the two searches that use the heuristic.
///
/// The result is a path without repeated nodes and the cost recorded for
/// `end`, which the path's own cost does not exceed. Where the frontier is
/// ordered by cost alone, that cost is the least that any walk from `start`
/// to `end` has. A node without an entry in `neighbors`, when the search
/// comes to expand it, ends the search with an error; so does a frontier
/// that runs empty.
pub fn run_pathfinding_algorithm(
    start: &Node,
    end: &Node,
    neighbors: &HashMap<u32, Vec<Edge>>,
    mark_passed_edges: bool,
    algorithm_type: AlgorithmType,
    heuristic_weight: u32,
    use_manhattan: bool,
) -> (result: Result<RunOutput, PathError>)
    ensures
        runs_to(
            search_for(neighbors@, *start, *end, algorithm_type, heuristic_weight, use_manhattan),
            mark_passed_edges,
            outcome_view(result),
        ),
        search_outcome(
            graph_of(neighbors@),
            start.id,
            end.id,
            mark_passed_edges,
            orders_by_cost(algorithm_type, heuristic_weight),
            outcome_view(result),
        ),
{
    broadcast use group_hash_axioms;

    let ghost search = search_for(
        neighbors@,
        *start,
        *end,
        algorithm_type,
        heuristic_weight,
        use_manhattan,
    );
    let ghost q = Query {
        graph: graph_of(neighbors@),
        start: start.id,
        goal: end.id,
        by_cost: orders_by_cost(algorithm_type, heuristic_weight),
    };
    let mut passed_edges: HashSet<u64> = HashSet::new();

    let mut frontier = frontier_new();
    frontier_push(&mut frontier, start.id, 0);

    let mut came_from: HashMap<u32, Option<u32>> = HashMap::new();
    let mut cost_so_far: HashMap<u32, u64> = HashMap::new();

    came_from.insert(start.id, None);
    cost_so_far.insert(start.id, 0);

    let ghost mut trail = Trail {
        stamp: Map::<u32, nat>::empty().insert(start.id, 0),
        clock: 1,
        expanded: Set::<u32>::empty(),
    };
    let ghost mut states: Seq<Bookkeeping> = seq![begun(search)];
    let ghost mut order: Seq<u32> = Seq::<u32>::empty();
    proof {
        assert(trail.expanded =~= order.to_set());
        lemma_initial(q);
        assert(state_of(cost_so_far@, came_from@, frontier_entries(frontier), trail) == initial(q));
        assert(listed_keys(q.graph, trail.expanded) =~= Set::<u64>::empty());
    }

    while !frontier_is_empty(&frontier)
        invariant
            q.graph == graph_of(neighbors@),
            q.start == start.id,
            q.goal == end.id,
            q.by_cost == orders_by_cost(algorithm_type, heuristic_weight),
            inv(
                state_of(cost_so_far@, came_from@, frontier_entries(frontier), trail),
                q,
                None,
            ),
            passed_edges@ == if mark_passed_edges {
                listed_keys(q.graph, trail.expanded)
            } else {
                Set::<u64>::empty()
            },
            search == search_for(
                neighbors@,
                *start,
                *end,
                algorithm_type,
                heuristic_weight,
                use_manhattan,
            ),
            is_run(search, states, order),
            states[states.len() - 1] == book_of(
                cost_so_far@,
                came_from@,
                frontier_entries(frontier),
            ),
            trail.expanded == order.to_set(),
        decreases potential(cost_so_far@), frontier_entries(frontier).dom().len(),
    {
        let ghost s = state_of(cost_so_far@, came_from@, frontier_entries(frontier), trail);
        let current: u32 = frontier_pop(&mut frontier).unwrap().0;
        proof {
            lemma_queued(s, q, current);
            lemma_goal_queued(s, q);
        }

        if current == end.id {
            let total_cost: u64 = match cost_so_far.get(&current) {
                Some(cost) => *cost,
                None => 0,
            };
            let (selected_edges, path) = reconstruct_path(
                &came_from,
                start,
                end,
                Ghost(s),
                Ghost(q),
            );
            let output = RunOutput { selected_edges, passed_edges, total_cost };
            proof {
                let walk = path@;
                if q.by_cost {
                    assert forall|other: Seq<Step>| #[trigger]
                        is_walk(q.graph, other, q.start, q.goal) implies total_cost <= walk_cost(
                        other,
                    ) by {
                        lemma_least_cost(s, q, current, other);
                    }
                }
                assert forall|node: u32| #[trigger]
                    trail.expanded.contains(node) implies q.graph.contains_key(node) && explorable(
                    q.graph,
                    q.start,
                    q.goal,
                    node,
                ) by {
                    lemma_expanded_node(s, q, node);
                }
                if trail.expanded.contains(q.goal) {
                    lemma_expanded_node(s, q, q.goal);
                }
                assert(found(
                    graph_of(neighbors@),
                    start.id,
                    end.id,
                    mark_passed_edges,
                    orders_by_cost(algorithm_type, heuristic_weight),
                    output@,
                    walk,
                    trail.expanded,
                ));
                let outcome = Ok::<RunOutputView, PathError>(output@);
                assert(outcome->Ok_0 == output@);
                assert(cheapest(states[states.len() - 1], current));
                assert(is_walk(search.graph, walk, search.start, search.goal) && follows(
                    states[states.len() - 1].pred,
                    walk,
                ) && output@.selected_edges == step_keys(walk));
                assert(ends_with(
                    search,
                    mark_passed_edges,
                    states[states.len() - 1],
                    order,
                    outcome,
                ));
            }
            return Ok(output);
        }
        let edges: &Vec<Edge> = match neighbors.get(&current) {
            Some(edges) => edges,
            None => {
                proof {
                    assert(cheapest(states[states.len() - 1], current));
                    assert(ends_with(
                        search,
                        mark_passed_edges,
                        states[states.len() - 1],
                        order,
                        Err(PathError::MissingNeighbors { node: current }),
                    ));
                }
                return Err(PathError::MissingNeighbors { node: current });
            },
        };
        let current_cost: u64 = *cost_so_far.get(&current).unwrap();
        let ghost done = trail.expanded;
        let ghost emptied = taken(states[states.len() - 1], current);
        proof {
            assert(edges@.take(0) =~= Seq::<Edge>::empty());
            assert(q.graph[current] == edges@);
            lemma_popped(s, q, current);
            trail = Trail { expanded: trail.expanded.insert(current), ..trail };
            assert(state_of(cost_so_far@, came_from@, frontier_entries(frontier), trail) == popped(
                s,
                current,
            ));
            assert(seen_keys(edges@, 0) =~= Set::<u64>::empty());
            assert(listed_keys(q.graph, done).union(seen_keys(edges@, 0)) =~= listed_keys(
                q.graph,
                done,
            ));
        }

        let mut i: usize = 0;
        while i < edges.len()
            invariant
                q.graph == graph_of(neighbors@),
                q.start == start.id,
                q.goal == end.id,
                q.by_cost == orders_by_cost(algorithm_type, heuristic_weight),
                q.graph.contains_key(current),
                q.graph[current] == edges@,
                trail.expanded == done.insert(current),
                i <= edges.len(),
                cost_so_far@.contains_key(current),
                current_cost == cost_so_far@[current],
                inv(
                    state_of(cost_so_far@, came_from@, frontier_entries(frontier), trail),
                    q,
                    Some((current, i as int)),
                ),
                potential(cost_so_far@) < potential(s.cost) || (cost_so_far@ == s.cost
                    && frontier_entries(frontier) == s.front.remove(current)),
                passed_edges@ == if mark_passed_edges {
                    listed_keys(q.graph, done).union(seen_keys(edges@, i as int))
                } else {
                    Set::<u64>::empty()
                },
                search == search_for(
                    neighbors@,
                    *start,
                    *end,
                    algorithm_type,
                    heuristic_weight,
                    use_manhattan,
                ),
                book_of(cost_so_far@, came_from@, frontier_entries(frontier)) == relaxed_all(
                    search,
                    emptied,
                    current,
                    edges@.take(i as int),
                ),
            decreases edges.len() - i,
        {
            let ghost before_edge = state_of(
                cost_so_far@,
                came_from@,
                frontier_entries(frontier),
                trail,
            );
            let ghost book = book_of(cost_so_far@, came_from@, frontier_entries(frontier));
            let next: &Edge = &edges[i];
            proof {
                assert(edges@.take(i + 1).drop_last() == edges@.take(i as int));
                assert(edges@.take(i + 1).last() == *next);
            }
            if mark_passed_edges {
                passed_edges.insert(next.key());
            }
            proof {
                assert(seen_keys(edges@, i + 1) =~= seen_keys(edges@, i as int).insert(
                    next.spec_key(),
                ));
                assert(listed_keys(q.graph, done).union(seen_keys(edges@, i + 1)) =~= listed_keys(
                    q.graph,
                    done,
                ).union(seen_keys(edges@, i as int)).insert(next.spec_key()));
                lemma_current(before_edge, q, current, i as int);
                assert(step_at(q.graph, current, i as int).to == next.to.id);
                assert(step_at(q.graph, current, i as int).length == next.length);
            }

            let new_cost: u64 = current_cost + next.length as u64;

            let improves: bool = match cost_so_far.get(&next.to.id) {
                Some(known) => new_cost < *known,
                None => true,
            };
            if improves {
                cost_so_far.insert(next.to.id, new_cost);

                let priority: u128 = priority(
                    algorithm_type,
                    new_cost,
                    &next.to,
                    end,
                    heuristic_weight,
                    use_manhattan,
                );

                frontier_push(&mut frontier, next.to.id, priority);
                came_from.insert(next.to.id, Some(current));
                proof {
                    lemma_improved(before_edge, q, current, i as int, new_cost, priority);
                    trail = Trail {
                        stamp: trail.stamp.insert(next.to.id, trail.clock),
                        clock: trail.clock + 1,
                        ..trail
                    };
                    assert(state_of(cost_so_far@, came_from@, frontier_entries(frontier), trail)
                        == improved(before_edge, current, next.to.id, new_cost, priority));
                }
            } else {
                proof {
                    lemma_passed_over(before_edge, q, current, i as int);
                }
            }
            proof {
                assert(book_of(cost_so_far@, came_from@, frontier_entries(frontier)) == relaxed_one(
                    search,
                    book,
                    current,
                    *next,
                ));
            }
            i += 1;
        }
        proof {
            assert(edges@.take(edges@.len() as int) == edges@);
            let grown = book_of(cost_so_far@, came_from@, frontier_entries(frontier));
            assert(expands(search, states[states.len() - 1], current, grown));
            lemma_run_push(search, states, order, current, grown);
            states = states.push(grown);
            let earlier = order;
            order = order.push(current);
            assert(order.to_set() =~= trail.expanded) by {
                assert(done == earlier.to_set());
                assert forall|node: u32|
                    order.to_set().contains(node) implies trail.expanded.contains(node) by {
                    let k = choose|k: int| 0 <= k < order.len() && order[k] == node;
                    if k < earlier.len() {
                        assert(earlier[k] == node);
                        assert(earlier.to_set().contains(node));
                    }
                }
                assert forall|node: u32|
                    trail.expanded.contains(node) implies order.to_set().contains(node) by {
                    if node == current {
                        assert(order[order.len() - 1] == node);
                    } else {
                        assert(earlier.to_set().contains(node));
                        let k = choose|k: int| 0 <= k < earlier.len() && earlier[k] == node;
                        assert(order[k] == node);
                    }
                }
            }
            let after = state_of(cost_so_far@, came_from@, frontier_entries(frontier), trail);
            lemma_expanded(after, q, current);
            lemma_listed_keys_insert(q.graph, done, current);
        }
    }
    proof {
        let s = state_of(cost_so_far@, came_from@, frontier_entries(frontier), trail);
        assert forall|node: u32| #[trigger]
            reachable(q.graph, q.start, node) implies q.graph.contains_key(node) && node
            != q.goal by {
            let walk = choose|walk: Seq<Step>| is_walk(q.graph, walk, q.start, node);
            lemma_drained(s, q, walk, node);
        }
        assert(ends_with(
            search,
            mark_passed_edges,
            states[states.len() - 1],
            order,
            Err(PathError::NoPath),
        ));
    }
    Err(PathError::NoPath)
}

} // verus!
