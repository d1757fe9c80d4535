//! The state of a running search as mathematical values, what holds of it
//! between any two steps, and the proofs that each step keeps it so.

use crate::graph::{
    explorable, has_step, is_walk, lemma_explorable_step, lemma_walk_cost_nonnegative, step_at,
    walk_cost, Graph, Step,
};
use vstd::prelude::*;
use vstd::set_lib::lemma_len_subset;

verus! {

/// What a search is asked for.
pub struct Query {
    pub graph: Graph,
    pub start: u32,
    pub goal: u32,
    /// The frontier is ordered by cost alone.
    pub by_cost: bool,
}

/// The bookkeeping of a search.
pub struct SearchState {
    /// The least cost found so far of reaching each discovered node.
    pub cost: Map<u32, u64>,
    /// The node from which each discovered node was last reached.
    pub pred: Map<u32, Option<u32>>,
    /// The queued nodes with their priorities.
    pub front: Map<u32, u128>,
    /// When each node's cost was last set.
    pub stamp: Map<u32, nat>,
    /// A time later than every stamp.
    pub clock: nat,
    /// The nodes whose outgoing edges have been examined.
    pub expanded: Set<u32>,
}

/// The node that is being expanded, if any, and how many of its edges have
/// been examined.
pub type Progress = Option<(u32, int)>;

/// The largest length an edge can have.
pub open spec fn max_length() -> int {
    0xffff_ffff
}

/// How many of the edges of `node` have been examined.
pub open spec fn examined(q: Query, progress: Progress, node: u32) -> int {
    match progress {
        Some((current, count)) if current == node => count,
        _ => q.graph[node].len() as int,
    }
}

/// The bookkeeping is consistent.
pub open spec fn inv_shape(s: SearchState, q: Query) -> bool {
    &&& s.cost.dom() == s.pred.dom()
    &&& s.cost.dom().finite()
    &&& s.cost.contains_key(q.start)
    &&& s.cost[q.start] == 0
    &&& s.pred[q.start] is None
    &&& s.front.dom().subset_of(s.cost.dom())
    &&& s.expanded.subset_of(s.cost.dom())
    &&& s.cost.dom().subset_of(s.stamp.dom())
    &&& !s.expanded.contains(q.goal)
    &&& s.cost.contains_key(q.goal) ==> s.front.contains_key(q.goal)
    &&& forall|x: u32| #[trigger]
        s.cost.contains_key(x) && !s.front.contains_key(x) ==> s.expanded.contains(x)
    &&& forall|x: u32| #[trigger] s.cost.contains_key(x) ==> s.stamp[x] < s.clock
    &&& forall|x: u32| #[trigger]
        s.cost.contains_key(x) ==> s.cost[x] <= (s.cost.dom().len() - 1) * max_length()
}

/// `a` comes before `b`: at a smaller cost, or at the same cost and set
/// earlier.
pub open spec fn before(s: SearchState, a: u32, b: u32) -> bool {
    s.cost[a] < s.cost[b] || (s.cost[a] == s.cost[b] && s.stamp[a] < s.stamp[b])
}

/// The step by which `x` was reached from `from`, at no more than the cost
/// recorded for `x`.
pub open spec fn arrives(s: SearchState, q: Query, from: u32, x: u32, length: u32) -> bool {
    &&& has_step(q.graph, Step { from, to: x, length })
    &&& s.cost[from] + length <= s.cost[x]
}

/// The record of how `x` was reached is sound.
pub open spec fn link_ok(s: SearchState, q: Query, x: u32) -> bool {
    &&& s.pred[x] is Some
    &&& s.expanded.contains(s.pred[x]->0)
    &&& before(s, s.pred[x]->0, x)
    &&& exists|length: u32| #[trigger] arrives(s, q, s.pred[x]->0, x, length)
}

/// Every discovered node but the start has a sound record of how it was
/// reached.
pub open spec fn inv_links(s: SearchState, q: Query) -> bool {
    forall|x: u32| #[trigger] s.cost.contains_key(x) && x != q.start ==> link_ok(s, q, x)
}

/// Every discovered node can be reached without leaving the goal.
pub open spec fn inv_explorable(s: SearchState, q: Query) -> bool {
    forall|x: u32| #[trigger] s.cost.contains_key(x) ==> explorable(q.graph, q.start, q.goal, x)
}

/// The `index`-th edge of `x` has been examined: its target is discovered
/// and, when the frontier is ordered by cost, costs no more than going
/// through `x`.
pub open spec fn edge_relaxed(s: SearchState, q: Query, x: u32, index: int) -> bool {
    let step = step_at(q.graph, x, index);
    &&& s.cost.contains_key(step.to)
    &&& q.by_cost ==> s.cost[step.to] <= s.cost[x] + step.length
}

/// The first `count` edges of `x` have been examined.
pub open spec fn relaxed(s: SearchState, q: Query, x: u32, count: int) -> bool {
    &&& q.graph.contains_key(x)
    &&& forall|index: int| 0 <= index < count ==> #[trigger] edge_relaxed(s, q, x, index)
}

/// The edges of every expanded node have been examined.
pub open spec fn inv_closed(s: SearchState, q: Query, progress: Progress) -> bool {
    forall|x: u32| #[trigger] s.expanded.contains(x) ==> relaxed(s, q, x, examined(q, progress, x))
}

/// What holds in addition when the frontier is ordered by cost: no
/// expanded node is queued, and none costs more than any queued node.
pub open spec fn inv_by_cost(s: SearchState, q: Query, progress: Progress) -> bool {
    q.by_cost ==> {
        &&& forall|y: u32| #[trigger] s.front.contains_key(y) ==> s.front[y] == s.cost[y]
        &&& forall|x: u32| #[trigger] s.expanded.contains(x) ==> !s.front.contains_key(x)
        &&& match progress {
            Some((current, _)) => {
                &&& forall|x: u32| #[trigger]
                    s.expanded.contains(x) ==> s.cost[x] <= s.cost[current]
                &&& forall|y: u32| #[trigger]
                    s.front.contains_key(y) ==> s.cost[current] <= s.cost[y]
            },
            None => forall|x: u32, y: u32|
                #![trigger s.expanded.contains(x), s.front.contains_key(y)]
                s.expanded.contains(x) && s.front.contains_key(y) ==> s.cost[x] <= s.cost[y],
        }
    }
}

/// What holds of a search between any two of its steps.
pub closed spec fn inv(s: SearchState, q: Query, progress: Progress) -> bool {
    &&& inv_shape(s, q)
    &&& inv_links(s, q)
    &&& inv_explorable(s, q)
    &&& inv_closed(s, q, progress)
    &&& inv_by_cost(s, q, progress)
    &&& match progress {
        Some((current, count)) => {
            &&& s.expanded.contains(current)
            &&& q.graph.contains_key(current)
            &&& 0 <= count <= q.graph[current].len()
        },
        None => true,
    }
}

/// What a node adds to the potential: its cost, or more than any cost while
/// it is undiscovered.
pub open spec fn weight_of(cost: Map<u32, u64>, node: u32) -> nat {
    if cost.contains_key(node) {
        cost[node] as nat
    } else {
        0x1_0000_0000_0000_0000
    }
}

/// The sum that the nodes below `bound` add to the potential.
pub open spec fn potential_below(cost: Map<u32, u64>, bound: nat) -> nat
    decreases bound,
{
    if bound == 0 {
        0
    } else {
        potential_below(cost, (bound - 1) as nat) + weight_of(cost, (bound - 1) as u32)
    }
}

/// The potential of a search: it gets smaller whenever a node is
/// discovered or a cost improves.
pub open spec fn potential(cost: Map<u32, u64>) -> nat {
    potential_below(cost, 0x1_0000_0000)
}

/// Setting one node's cost below what it added lowers the potential by the
/// difference.
pub proof fn lemma_potential_improves(cost: Map<u32, u64>, node: u32, value: u64, bound: nat)
    requires
        value < weight_of(cost, node),
        bound <= 0x1_0000_0000,
    ensures
        potential_below(cost.insert(node, value), bound) == potential_below(cost, bound) - (if node
            < bound {
            weight_of(cost, node) - value
        } else {
            0
        }),
    decreases bound,
{
    if bound > 0 {
        lemma_potential_improves(cost, node, value, (bound - 1) as nat);
    }
}

/// There are no more than 2^32 node ids.
pub proof fn lemma_node_count(nodes: Set<u32>)
    requires
        nodes.finite(),
    ensures
        nodes.len() <= 0x1_0000_0000,
{
    let below = Set::<u32>::new(|i: u32| 0u32 <= i < 0xffff_ffffu32);
    let all = below.insert(0xffff_ffffu32);
    vstd::set_lib::range_set_properties::<u32>(0u32, 0xffff_ffffu32);
    assert(below == <u32 as vstd::set_lib::FiniteRange>::range_set(0u32, 0xffff_ffffu32));
    assert(nodes.subset_of(all));
    lemma_len_subset(nodes, all);
}

/// The state in which a search starts: the start node alone is discovered
/// and queued.
pub open spec fn initial(q: Query) -> SearchState {
    SearchState {
        cost: Map::<u32, u64>::empty().insert(q.start, 0),
        pred: Map::<u32, Option<u32>>::empty().insert(q.start, None),
        front: Map::<u32, u128>::empty().insert(q.start, 0),
        stamp: Map::<u32, nat>::empty().insert(q.start, 0),
        clock: 1,
        expanded: Set::<u32>::empty(),
    }
}

/// The state after `current` has left the frontier to be expanded.
pub open spec fn popped(s: SearchState, current: u32) -> SearchState {
    SearchState { front: s.front.remove(current), expanded: s.expanded.insert(current), ..s }
}

/// The state after a cheaper way to `next` has been found through
/// `current`.
pub open spec fn improved(
    s: SearchState,
    current: u32,
    next: u32,
    cost: u64,
    priority: u128,
) -> SearchState {
    SearchState {
        cost: s.cost.insert(next, cost),
        pred: s.pred.insert(next, Some(current)),
        front: s.front.insert(next, priority),
        stamp: s.stamp.insert(next, s.clock),
        clock: s.clock + 1,
        expanded: s.expanded,
    }
}

/// A search starts in a state of which the invariant holds.
pub proof fn lemma_initial(q: Query)
    ensures
        inv(initial(q), q, None),
{
    let s = initial(q);
    assert(s.cost.dom() =~= Set::<u32>::empty().insert(q.start));
    assert(s.pred.dom() =~= Set::<u32>::empty().insert(q.start));
    assert(s.cost.dom().len() == 1);
    crate::graph::lemma_explorable_start(q.graph, q.start, q.goal);
}

/// Taking the cheapest node off the frontier keeps the invariant.
pub proof fn lemma_popped(s: SearchState, q: Query, current: u32)
    requires
        inv(s, q, None),
        s.front.contains_key(current),
        forall|other: u32| #[trigger]
            s.front.contains_key(other) ==> s.front[current] <= s.front[other],
        current != q.goal,
        q.graph.contains_key(current),
    ensures
        inv(popped(s, current), q, Some((current, 0int))),
{
    let t = popped(s, current);
    let progress: Progress = Some((current, 0int));
    assert(s.cost.contains_key(current));
    assert(inv_shape(t, q));
    assert forall|x: u32| #[trigger] t.cost.contains_key(x) && x != q.start implies link_ok(
        t,
        q,
        x,
    ) by {
        assert(link_ok(s, q, x));
        let length = choose|length: u32| #[trigger] arrives(s, q, s.pred[x]->0, x, length);
        assert(arrives(t, q, t.pred[x]->0, x, length));
    }
    assert forall|x: u32| #[trigger] t.expanded.contains(x) implies relaxed(
        t,
        q,
        x,
        examined(q, progress, x),
    ) by {
        if x != current {
            assert(s.expanded.contains(x));
            assert(relaxed(s, q, x, examined(q, None, x)));
            assert forall|index: int|
                0 <= index < examined(q, progress, x) implies #[trigger] edge_relaxed(
                t,
                q,
                x,
                index,
            ) by {
                assert(edge_relaxed(s, q, x, index));
            }
        }
    }
    if q.by_cost {
        assert forall|x: u32| #[trigger] t.expanded.contains(x) implies t.cost[x]
            <= t.cost[current] by {
            if x != current {
                assert(s.expanded.contains(x) && s.front.contains_key(current));
            }
        }
        assert forall|y: u32| #[trigger] t.front.contains_key(y) implies t.cost[current]
            <= t.cost[y] by {
            assert(s.front.contains_key(y));
        }
    }
}

/// Passing over an edge that offers no cheaper way keeps the invariant.
pub proof fn lemma_passed_over(s: SearchState, q: Query, current: u32, count: int)
    requires
        inv(s, q, Some((current, count))),
        count < q.graph[current].len(),
        s.cost.contains_key(step_at(q.graph, current, count).to),
        s.cost[step_at(q.graph, current, count).to] <= s.cost[current] + step_at(
            q.graph,
            current,
            count,
        ).length,
    ensures
        inv(s, q, Some((current, count + 1))),
{
    let before_edge: Progress = Some((current, count));
    let after_edge: Progress = Some((current, count + 1));
    assert forall|x: u32| #[trigger] s.expanded.contains(x) implies relaxed(
        s,
        q,
        x,
        examined(q, after_edge, x),
    ) by {
        assert(relaxed(s, q, x, examined(q, before_edge, x)));
        assert forall|index: int|
            0 <= index < examined(q, after_edge, x) implies #[trigger] edge_relaxed(
            s,
            q,
            x,
            index,
        ) by {
            if x == current && index == count {
            } else {
                assert(edge_relaxed(s, q, x, index));
            }
        }
    }
}

/// Recording a cheaper way to a node keeps the invariant and lowers the
/// potential.
pub proof fn lemma_improved(
    s: SearchState,
    q: Query,
    current: u32,
    count: int,
    cost: u64,
    priority: u128,
)
    requires
        inv(s, q, Some((current, count))),
        count < q.graph[current].len(),
        cost == s.cost[current] + step_at(q.graph, current, count).length,
        !s.cost.contains_key(step_at(q.graph, current, count).to) || cost < s.cost[step_at(
            q.graph,
            current,
            count,
        ).to],
        q.by_cost ==> priority == cost,
    ensures
        inv(
            improved(s, current, step_at(q.graph, current, count).to, cost, priority),
            q,
            Some((current, count + 1)),
        ),
        potential(s.cost.insert(step_at(q.graph, current, count).to, cost)) < potential(s.cost),
{
    let step = step_at(q.graph, current, count);
    let next = step.to;
    let t = improved(s, current, next, cost, priority);
    let before_edge: Progress = Some((current, count));
    let after_edge: Progress = Some((current, count + 1));
    assert(s.cost.contains_key(current));
    assert(next != q.start);
    assert(next != current);
    assert(has_step(q.graph, step)) by {
        assert(step_at(q.graph, step.from, count) == step);
    }
    if q.by_cost && s.expanded.contains(next) {
        assert(s.cost[next] <= s.cost[current]);
        assert(false);
    }
    assert(inv_shape(t, q)) by {
        lemma_node_count(s.cost.dom());
        assert(t.cost.dom() =~= s.cost.dom().insert(next));
        assert(t.pred.dom() =~= s.pred.dom().insert(next));
        assert(t.cost.dom() == t.pred.dom());
        if s.cost.contains_key(next) {
            assert(t.cost.dom() =~= s.cost.dom());
        } else {
            assert(t.cost.dom().len() == s.cost.dom().len() + 1);
        }
        assert forall|x: u32| #[trigger] t.cost.contains_key(x) implies t.cost[x] <= (
        t.cost.dom().len() - 1) * max_length() by {
            if x != next {
                assert(s.cost.contains_key(x));
            }
        }
        assert forall|x: u32| #[trigger] t.cost.contains_key(x) implies t.stamp[x] < t.clock by {
            if x != next {
                assert(s.cost.contains_key(x));
            }
        }
        assert forall|x: u32| #[trigger]
            t.cost.contains_key(x) && !t.front.contains_key(x) implies t.expanded.contains(x) by {
            assert(s.cost.contains_key(x) && !s.front.contains_key(x));
        }
    }
    assert forall|x: u32| #[trigger] t.cost.contains_key(x) && x != q.start implies link_ok(
        t,
        q,
        x,
    ) by {
        if x == next {
            assert(arrives(t, q, current, next, step.length));
            assert(t.pred[x] == Some(current));
            assert(s.stamp[current] < s.clock);
            assert(before(t, current, next));
        } else {
            assert(s.cost.contains_key(x));
            assert(link_ok(s, q, x));
            let from = s.pred[x]->0;
            let length = choose|length: u32| #[trigger] arrives(s, q, from, x, length);
            assert(s.cost.contains_key(from));
            assert(arrives(t, q, from, x, length));
            assert(t.pred[x] == s.pred[x]);
            assert(before(t, from, x));
        }
    }
    assert forall|x: u32| #[trigger] t.cost.contains_key(x) implies explorable(
        q.graph,
        q.start,
        q.goal,
        x,
    ) by {
        if x == next {
            lemma_explorable_step(q.graph, q.start, q.goal, step);
        } else {
            assert(s.cost.contains_key(x));
        }
    }
    assert forall|x: u32| #[trigger] t.expanded.contains(x) implies relaxed(
        t,
        q,
        x,
        examined(q, after_edge, x),
    ) by {
        assert(relaxed(s, q, x, examined(q, before_edge, x)));
        assert forall|index: int|
            0 <= index < examined(q, after_edge, x) implies #[trigger] edge_relaxed(
            t,
            q,
            x,
            index,
        ) by {
            if x == current && index == count {
            } else {
                assert(edge_relaxed(s, q, x, index));
            }
        }
    }
    assert(inv_by_cost(t, q, after_edge)) by {
        if q.by_cost {
            assert forall|y: u32| #[trigger] t.front.contains_key(y) implies t.front[y]
                == t.cost[y] by {
                if y != next {
                    assert(s.front.contains_key(y));
                }
            }
            assert forall|y: u32| #[trigger] t.front.contains_key(y) implies t.cost[current]
                <= t.cost[y] by {
                if y != next {
                    assert(s.front.contains_key(y));
                }
            }
            assert forall|x: u32| #[trigger] t.expanded.contains(x) implies t.cost[x]
                <= t.cost[current] by {
                assert(s.expanded.contains(x));
            }
        }
    }
    lemma_potential_improves(s.cost, next, cost, 0x1_0000_0000);
}

/// When all edges of the current node have been examined, the invariant
/// holds without a current node.
pub proof fn lemma_expanded(s: SearchState, q: Query, current: u32)
    requires
        inv(s, q, Some((current, q.graph[current].len() as int))),
    ensures
        inv(s, q, None),
{
    let at_end: Progress = Some((current, q.graph[current].len() as int));
    assert forall|x: u32| #[trigger] s.expanded.contains(x) implies relaxed(
        s,
        q,
        x,
        examined(q, None, x),
    ) by {
        assert(relaxed(s, q, x, examined(q, at_end, x)));
    }
    if q.by_cost {
        assert forall|x: u32, y: u32|
            #![trigger s.expanded.contains(x), s.front.contains_key(y)]
            s.expanded.contains(x) && s.front.contains_key(y) implies s.cost[x] <= s.cost[y] by {
            assert(s.cost[x] <= s.cost[current]);
            assert(s.cost[current] <= s.cost[y]);
        }
    }
}

/// A walk without its last step is a walk to where that step leaves from.
pub proof fn lemma_walk_drop_last(g: Graph, walk: Seq<Step>, from: u32, to: u32)
    requires
        is_walk(g, walk, from, to),
        walk.len() > 0,
    ensures
        is_walk(g, walk.drop_last(), from, walk.last().from),
        has_step(g, walk.last()),
        walk.last().to == to,
{
    let shorter = walk.drop_last();
    assert forall|i: int| 0 <= i < shorter.len() implies has_step(g, #[trigger] shorter[i]) by {
        assert(shorter[i] == walk[i]);
    }
    assert forall|i: int| 0 <= i < shorter.len() - 1 implies (#[trigger] shorter[i]).to
        == shorter[i + 1].from by {
        assert(shorter[i] == walk[i]);
        assert(shorter[i + 1] == walk[i + 1]);
    }
    if shorter.len() > 0 {
        assert(shorter[0] == walk[0]);
        let k = shorter.len() - 1;
        assert(shorter[k] == walk[k]);
        assert(walk[k].to == walk[k + 1].from);
    }
}

/// Once the frontier is empty, every node that can be reached from the
/// start has been expanded.
pub proof fn lemma_drained(s: SearchState, q: Query, walk: Seq<Step>, to: u32)
    requires
        inv(s, q, None),
        s.front.dom() == Set::<u32>::empty(),
        is_walk(q.graph, walk, q.start, to),
    ensures
        s.expanded.contains(to),
        q.graph.contains_key(to),
        to != q.goal,
    decreases walk.len(),
{
    if walk.len() == 0 {
        assert(s.cost.contains_key(to) && !s.front.contains_key(to));
    } else {
        let last = walk.last();
        lemma_walk_drop_last(q.graph, walk, q.start, to);
        lemma_drained(s, q, walk.drop_last(), last.from);
        assert(relaxed(s, q, last.from, examined(q, None, last.from)));
        let index = choose|index: int|
            0 <= index < q.graph[last.from].len() && #[trigger] step_at(q.graph, last.from, index)
                == last;
        assert(edge_relaxed(s, q, last.from, index));
        assert(s.cost.contains_key(to) && !s.front.contains_key(to));
    }
    assert(relaxed(s, q, to, examined(q, None, to)));
}

/// When the frontier is ordered by cost, no walk from the start is cheaper
/// than what is recorded: not than the cost of its end, if that is
/// expanded, and else not than the cost of some queued node.
pub proof fn lemma_lower_bound(s: SearchState, q: Query, walk: Seq<Step>, to: u32)
    requires
        inv(s, q, None),
        q.by_cost,
        is_walk(q.graph, walk, q.start, to),
    ensures
        s.expanded.contains(to) ==> s.cost[to] <= walk_cost(walk),
        !s.expanded.contains(to) ==> exists|queued: u32| #[trigger]
            s.front.contains_key(queued) && s.cost[queued] <= walk_cost(walk),
    decreases walk.len(),
{
    if walk.len() == 0 {
        if !s.expanded.contains(to) {
            assert(s.cost.contains_key(to));
            assert(s.front.contains_key(to) && s.cost[to] <= walk_cost(walk));
        }
    } else {
        let last = walk.last();
        let shorter = walk.drop_last();
        lemma_walk_drop_last(q.graph, walk, q.start, to);
        lemma_lower_bound(s, q, shorter, last.from);
        lemma_walk_cost_nonnegative(shorter);
        if s.expanded.contains(last.from) {
            assert(relaxed(s, q, last.from, examined(q, None, last.from)));
            let index = choose|index: int|
                0 <= index < q.graph[last.from].len() && #[trigger] step_at(
                    q.graph,
                    last.from,
                    index,
                ) == last;
            assert(edge_relaxed(s, q, last.from, index));
            if !s.expanded.contains(to) {
                assert(s.front.contains_key(to) && s.cost[to] <= walk_cost(walk));
            }
        } else {
            let queued = choose|queued: u32| #[trigger]
                s.front.contains_key(queued) && s.cost[queued] <= walk_cost(shorter);
            if s.expanded.contains(to) {
                assert(s.expanded.contains(to) && s.front.contains_key(queued));
            } else {
                assert(s.front.contains_key(queued) && s.cost[queued] <= walk_cost(walk));
            }
        }
    }
}

/// Every queued node is discovered and can be reached without leaving the
/// goal; the frontier is finite.
pub proof fn lemma_queued(s: SearchState, q: Query, node: u32)
    requires
        inv(s, q, None),
        s.front.contains_key(node),
    ensures
        s.cost.contains_key(node),
        explorable(q.graph, q.start, q.goal, node),
        s.front.dom().finite(),
{
    vstd::set_lib::lemma_set_subset_finite(s.cost.dom(), s.front.dom());
}

/// The goal, once discovered, stays queued until it is taken off the
/// frontier.
pub proof fn lemma_goal_queued(s: SearchState, q: Query)
    requires
        inv(s, q, None),
    ensures
        s.cost.contains_key(q.goal) ==> s.front.contains_key(q.goal),
        s.cost.contains_key(q.start),
        s.cost.dom() == s.pred.dom(),
{
}

/// The cost of the node that is being expanded is recorded, and an edge's
/// length can be added to it within 64 bits.
pub proof fn lemma_current(s: SearchState, q: Query, current: u32, count: int)
    requires
        inv(s, q, Some((current, count))),
    ensures
        s.cost.contains_key(current),
        s.cost[current] + max_length() <= 0xffff_ffff_ffff_ffff,
        q.graph.contains_key(current),
        0 <= count <= q.graph[current].len(),
{
    lemma_node_count(s.cost.dom());
}

/// An expanded node has an entry, can be reached without leaving the goal,
/// and is not the goal.
pub proof fn lemma_expanded_node(s: SearchState, q: Query, node: u32)
    requires
        inv(s, q, None),
        s.expanded.contains(node),
    ensures
        q.graph.contains_key(node),
        explorable(q.graph, q.start, q.goal, node),
        node != q.goal,
        s.cost.contains_key(node),
{
    assert(relaxed(s, q, node, examined(q, None, node)));
}

/// How a discovered node other than the start was reached.
pub proof fn lemma_link(s: SearchState, q: Query, node: u32)
    requires
        inv(s, q, None),
        s.cost.contains_key(node),
        node != q.start,
    ensures
        link_ok(s, q, node),
        s.pred.contains_key(node),
        s.cost.contains_key(s.pred[node]->0),
{
    assert(link_ok(s, q, node));
}

/// When the frontier is ordered by cost, the cost recorded for its
/// cheapest node is the least that any walk from the start to that node
/// has.
pub proof fn lemma_least_cost(s: SearchState, q: Query, cheapest: u32, walk: Seq<Step>)
    requires
        inv(s, q, None),
        q.by_cost,
        s.front.contains_key(cheapest),
        forall|other: u32| #[trigger]
            s.front.contains_key(other) ==> s.front[cheapest] <= s.front[other],
        is_walk(q.graph, walk, q.start, cheapest),
    ensures
        s.cost[cheapest] <= walk_cost(walk),
{
    lemma_lower_bound(s, q, walk, cheapest);
    let queued = choose|queued: u32| #[trigger]
        s.front.contains_key(queued) && s.cost[queued] <= walk_cost(walk);
    assert(s.front[cheapest] <= s.front[queued]);
}

} // verus!
