//! The mathematical model of the road network: steps, walks and their cost.

use crate::models::edge::{edge_key, Edge};
use vstd::prelude::*;

verus! {

/// The adjacency view as a mathematical map: each node id that has an
/// entry, with the sequence of its outgoing edges.
pub type Graph = Map<u32, Seq<Edge>>;

/// One hop of a walk: from a node along one of its outgoing edges.
pub struct Step {
    pub from: u32,
    pub to: u32,
    pub length: u32,
}

/// The model of an adjacency mapping held in memory.
pub open spec fn graph_of(neighbors: Map<u32, Vec<Edge>>) -> Graph {
    neighbors.map_values(|edges: Vec<Edge>| edges@)
}

/// The step that the `index`-th outgoing edge of `from` stands for. The
/// edge is taken to leave the node under which it is listed.
pub open spec fn step_at(g: Graph, from: u32, index: int) -> Step {
    Step { from, to: g[from][index].to.id, length: g[from][index].length }
}

/// `step` can be taken in `g`: its origin has an entry, and one of the
/// edges listed there leads to its target with its length.
pub open spec fn has_step(g: Graph, step: Step) -> bool {
    &&& g.contains_key(step.from)
    &&& exists|index: int|
        0 <= index < g[step.from].len() && #[trigger] step_at(g, step.from, index) == step
}

/// `walk` leads from `from` to `to` in `g`, hop by hop without gaps. The
/// empty walk leads from a node to itself.
pub open spec fn is_walk(g: Graph, walk: Seq<Step>, from: u32, to: u32) -> bool {
    &&& walk.len() == 0 ==> from == to
    &&& walk.len() > 0 ==> walk[0].from == from && walk[walk.len() - 1].to == to
    &&& forall|i: int| 0 <= i < walk.len() ==> has_step(g, #[trigger] walk[i])
    &&& forall|i: int| 0 <= i < walk.len() - 1 ==> (#[trigger] walk[i]).to == walk[i + 1].from
}

/// The sum of the lengths of the steps of `walk`.
pub open spec fn walk_cost(walk: Seq<Step>) -> int
    decreases walk.len(),
{
    if walk.len() == 0 {
        0
    } else {
        walk_cost(walk.drop_last()) + walk.last().length
    }
}

/// No step of `walk` leaves `node`.
pub open spec fn avoids(walk: Seq<Step>, node: u32) -> bool {
    forall|i: int| 0 <= i < walk.len() ==> (#[trigger] walk[i]).from != node
}

/// No two steps of `walk` arrive at the same node.
pub open spec fn distinct_targets(walk: Seq<Step>) -> bool {
    forall|i: int, j: int|
        0 <= i < j < walk.len() ==> (#[trigger] walk[i]).to != (#[trigger] walk[j]).to
}

/// `to` can be reached from `from`.
pub open spec fn reachable(g: Graph, from: u32, to: u32) -> bool {
    exists|walk: Seq<Step>| is_walk(g, walk, from, to)
}

/// `to` can be reached from `from` by a walk that never leaves `goal`: the
/// nodes a search for `goal` may come to.
pub open spec fn explorable(g: Graph, from: u32, goal: u32, to: u32) -> bool {
    exists|walk: Seq<Step>| is_walk(g, walk, from, to) && avoids(walk, goal)
}

/// The keys of the endpoint pairs of the steps of `walk`.
pub open spec fn step_keys(walk: Seq<Step>) -> Set<u64> {
    Set::new(
        |key: u64|
            exists|i: int|
                0 <= i < walk.len() && key == edge_key((#[trigger] walk[i]).from, walk[i].to),
    )
}

/// The keys of the endpoint pairs of all edges listed under the nodes of
/// `nodes`, each edge with the endpoints that it names itself.
pub open spec fn listed_keys(g: Graph, nodes: Set<u32>) -> Set<u64> {
    Set::new(
        |key: u64|
            exists|node: u32, index: int|
                nodes.contains(node) && g.contains_key(node) && 0 <= index < g[node].len() && key
                    == (#[trigger] g[node][index]).spec_key(),
    )
}

/// A walk's cost is not negative.
pub proof fn lemma_walk_cost_nonnegative(walk: Seq<Step>)
    ensures
        walk_cost(walk) >= 0,
    decreases walk.len(),
{
    if walk.len() > 0 {
        lemma_walk_cost_nonnegative(walk.drop_last());
    }
}

/// A walk with one more step at its start costs that step's length more.
pub proof fn lemma_walk_cost_prepend(step: Step, walk: Seq<Step>)
    ensures
        walk_cost(seq![step] + walk) == step.length + walk_cost(walk),
    decreases walk.len(),
{
    let whole = seq![step] + walk;
    if walk.len() == 0 {
        assert(whole.drop_last() == Seq::<Step>::empty());
        assert(walk_cost(whole.drop_last()) == 0);
    } else {
        assert(whole.drop_last() == seq![step] + walk.drop_last());
        lemma_walk_cost_prepend(step, walk.drop_last());
    }
}

/// A walk can be continued by a step that leaves its end.
pub proof fn lemma_walk_push(g: Graph, walk: Seq<Step>, from: u32, step: Step)
    requires
        is_walk(g, walk, from, step.from),
        has_step(g, step),
    ensures
        is_walk(g, walk.push(step), from, step.to),
{
    let longer = walk.push(step);
    assert forall|i: int| 0 <= i < longer.len() implies has_step(g, #[trigger] longer[i]) by {
        if i < walk.len() {
            assert(longer[i] == walk[i]);
        }
    }
    assert forall|i: int| 0 <= i < longer.len() - 1 implies (#[trigger] longer[i]).to == longer[i
        + 1].from by {
        assert(longer[i] == walk[i]);
        if i + 1 < walk.len() {
            assert(longer[i + 1] == walk[i + 1]);
        }
    }
    if walk.len() > 0 {
        assert(longer[0] == walk[0]);
    }
}

/// A walk can be entered by a step that arrives at its start.
pub proof fn lemma_walk_prepend(g: Graph, step: Step, walk: Seq<Step>, to: u32)
    requires
        is_walk(g, walk, step.to, to),
        has_step(g, step),
    ensures
        is_walk(g, seq![step] + walk, step.from, to),
{
    let longer = seq![step] + walk;
    assert forall|i: int| 0 <= i < longer.len() implies has_step(g, #[trigger] longer[i]) by {
        if i > 0 {
            assert(longer[i] == walk[i - 1]);
        }
    }
    assert forall|i: int| 0 <= i < longer.len() - 1 implies (#[trigger] longer[i]).to == longer[i
        + 1].from by {
        assert(longer[i + 1] == walk[i]);
        if i > 0 {
            assert(longer[i] == walk[i - 1]);
        }
    }
    if walk.len() > 0 {
        assert(longer[longer.len() - 1] == walk[walk.len() - 1]);
    }
}

/// A node that the search may come to leads, unless it is the goal, to
/// nodes that the search may come to.
pub proof fn lemma_explorable_step(g: Graph, from: u32, goal: u32, step: Step)
    requires
        explorable(g, from, goal, step.from),
        step.from != goal,
        has_step(g, step),
    ensures
        explorable(g, from, goal, step.to),
{
    let walk = choose|walk: Seq<Step>| is_walk(g, walk, from, step.from) && avoids(walk, goal);
    lemma_walk_push(g, walk, from, step);
    let longer = walk.push(step);
    assert forall|i: int| 0 <= i < longer.len() implies (#[trigger] longer[i]).from != goal by {
        if i < walk.len() {
            assert(longer[i] == walk[i]);
        }
    }
    assert(is_walk(g, longer, from, step.to) && avoids(longer, goal));
}

/// The search may come to the node it starts from.
pub proof fn lemma_explorable_start(g: Graph, from: u32, goal: u32)
    ensures
        explorable(g, from, goal, from),
        reachable(g, from, from),
{
    let walk = Seq::<Step>::empty();
    assert(is_walk(g, walk, from, from) && avoids(walk, goal));
}

} // verus!
