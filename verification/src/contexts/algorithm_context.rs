//! The query context: the toggles of a search, the result of the last
//! query, and the table of the results of all queries answered so far.

use crate::contexts::pathfinding::{
    orders_by_cost, outcome_view, run_pathfinding_algorithm, search_for, search_outcome,
    PathError, RunOutput, RunOutputView, WEIGHT_ONE,
};
use crate::contexts::search_run::runs_to;
use crate::graph::graph_of;
use crate::models::edge::Edge;
use crate::models::node::Node;
use std::collections::{HashMap, HashSet};
use vstd::prelude::*;
use vstd::std_specs::hash::*;

verus! {

/// How the frontier of a search is ordered.
#[derive(PartialEq, Eq, Structural, Hash, Copy, Clone, Debug)]
pub enum AlgorithmType {
    /// By the heuristic alone. The cost so far takes no part in the order:
    /// this is a greedy best-first search, kept as it is on purpose.
    AStar,
    /// By the cost so far plus the weighted heuristic.
    HybridAStar,
    /// By the cost so far.
    Dijkstra,
}

impl AlgorithmType {
    /// The name under which the algorithm is shown.
    pub fn label(&self) -> (label: String)
        ensures
            label@ == (match *self {
                AlgorithmType::AStar => "A Star"@,
                AlgorithmType::HybridAStar => "Hybrid A Star"@,
                AlgorithmType::Dijkstra => "Dijkstra"@,
            }),
    {
        match self {
            AlgorithmType::AStar => "A Star".to_owned(),
            AlgorithmType::HybridAStar => "Hybrid A Star".to_owned(),
            AlgorithmType::Dijkstra => "Dijkstra".to_owned(),
        }
    }
}

/// Everything a query's result depends on, the graph aside.
#[derive(Clone, Copy, Debug)]
pub struct RunArgs {
    pub start: Node,
    pub end: Node,
    pub mark_passed_edges: bool,
    pub algorithm: AlgorithmType,
    /// In tenths.
    pub heuristic_weight: u32,
    pub use_manhattan: bool,
}

/// A query as the table of results knows it: the two nodes by their ids,
/// and the toggles.
pub struct Signature {
    pub start: u32,
    pub end: u32,
    pub mark_passed_edges: bool,
    pub algorithm: AlgorithmType,
    pub heuristic_weight: u32,
    pub use_manhattan: bool,
}

impl View for RunArgs {
    type V = Signature;

    open spec fn view(&self) -> Signature {
        Signature {
            start: self.start.id,
            end: self.end.id,
            mark_passed_edges: self.mark_passed_edges,
            algorithm: self.algorithm,
            heuristic_weight: self.heuristic_weight,
            use_manhattan: self.use_manhattan,
        }
    }
}

impl RunArgs {
    /// The number under which the table of results holds this query.
    pub fn key(&self) -> (key: u128)
        ensures
            key == signature_key(self@),
    {
        let nodes: u128 = self.start.id as u128 * 0x1_0000_0000 + self.end.id as u128;
        let weighted: u128 = nodes * 0x1_0000_0000 + self.heuristic_weight as u128;
        let algorithm: u128 = match self.algorithm {
            AlgorithmType::AStar => 0,
            AlgorithmType::HybridAStar => 1,
            AlgorithmType::Dijkstra => 2,
        };
        let marking: u128 = if self.mark_passed_edges {
            1
        } else {
            0
        };
        let manhattan: u128 = if self.use_manhattan {
            1
        } else {
            0
        };
        ((weighted * 4 + algorithm) * 2 + marking) * 2 + manhattan
    }
}

impl PartialEq for RunArgs {
    fn eq(&self, other: &Self) -> (equal: bool) {
        self.start.id == other.start.id && self.end.id == other.end.id && self.mark_passed_edges
            == other.mark_passed_edges && self.algorithm == other.algorithm
            && self.heuristic_weight == other.heuristic_weight && self.use_manhattan
            == other.use_manhattan
    }
}

impl Eq for RunArgs {

}

impl vstd::std_specs::cmp::PartialEqSpecImpl for RunArgs {
    open spec fn obeys_eq_spec() -> bool {
        true
    }

    open spec fn eq_spec(&self, other: &Self) -> bool {
        self@ == other@
    }
}

/// The number that stands for an algorithm in a query's key.
pub open spec fn algorithm_code(algorithm: AlgorithmType) -> int {
    match algorithm {
        AlgorithmType::AStar => 0,
        AlgorithmType::HybridAStar => 1,
        AlgorithmType::Dijkstra => 2,
    }
}

/// 1 for true, 0 for false.
pub open spec fn flag(b: bool) -> int {
    if b {
        1
    } else {
        0
    }
}

/// The number under which the table of results holds the query
/// `signature`: its fields one after the other, the two node ids and the
/// weight in 32 bits each, the algorithm in two, the toggles in one.
pub open spec fn signature_key(signature: Signature) -> u128 {
    (((((signature.start * 0x1_0000_0000 + signature.end) * 0x1_0000_0000
        + signature.heuristic_weight) * 4 + algorithm_code(signature.algorithm)) * 2 + flag(
        signature.mark_passed_edges,
    )) * 2 + flag(signature.use_manhattan)) as u128
}

/// Different queries have different keys.
pub proof fn lemma_signature_key_injective(a: Signature, b: Signature)
    ensures
        signature_key(a) == signature_key(b) <==> a == b,
{
    if signature_key(a) == signature_key(b) {
        let upper_a = (((a.start * 0x1_0000_0000 + a.end) * 0x1_0000_0000 + a.heuristic_weight) * 4
            + algorithm_code(a.algorithm)) * 2 + flag(a.mark_passed_edges);
        let upper_b = (((b.start * 0x1_0000_0000 + b.end) * 0x1_0000_0000 + b.heuristic_weight) * 4
            + algorithm_code(b.algorithm)) * 2 + flag(b.mark_passed_edges);
        assert(upper_a == upper_b);
        assert(a.use_manhattan == b.use_manhattan);
        let middle_a = ((a.start * 0x1_0000_0000 + a.end) * 0x1_0000_0000 + a.heuristic_weight) * 4
            + algorithm_code(a.algorithm);
        let middle_b = ((b.start * 0x1_0000_0000 + b.end) * 0x1_0000_0000 + b.heuristic_weight) * 4
            + algorithm_code(b.algorithm);
        assert(middle_a == middle_b);
        assert(a.mark_passed_edges == b.mark_passed_edges);
        let lower_a = (a.start * 0x1_0000_0000 + a.end) * 0x1_0000_0000 + a.heuristic_weight;
        let lower_b = (b.start * 0x1_0000_0000 + b.end) * 0x1_0000_0000 + b.heuristic_weight;
        assert(lower_a == lower_b);
        assert(a.algorithm == b.algorithm);
        assert(a.start * 0x1_0000_0000 + a.end == b.start * 0x1_0000_0000 + b.end);
        assert(a.heuristic_weight == b.heuristic_weight);
        assert(a.start == b.start);
        assert(a.end == b.end);
    }
}

/// The table that `entries` stand for: each query whose key has an entry,
/// with the outcome held under it.
pub open spec fn table_of(entries: Map<u128, Result<RunOutput, PathError>>) -> Map<
    Signature,
    Result<RunOutputView, PathError>,
> {
    Map::new(
        |signature: Signature| entries.contains_key(signature_key(signature)),
        |signature: Signature| outcome_view(entries[signature_key(signature)]),
    )
}

/// No entry for a query that did not ask for the examined edges holds
/// any.
pub open spec fn unmarked_pass_nothing(entries: Map<u128, Result<RunOutput, PathError>>) -> bool {
    forall|signature: Signature|
        entries.contains_key(#[trigger] signature_key(signature)) && !signature.mark_passed_edges
            ==> (entries[signature_key(signature)] matches Ok(out) ==> out.passed_edges@
            == Set::<u64>::empty())
}

/// A table with one more entry is the old table with that query's
/// outcome added.
pub proof fn lemma_table_insert(
    entries: Map<u128, Result<RunOutput, PathError>>,
    signature: Signature,
    outcome: Result<RunOutput, PathError>,
)
    ensures
        table_of(entries.insert(signature_key(signature), outcome)) == table_of(entries).insert(
            signature,
            outcome_view(outcome),
        ),
{
    let longer = entries.insert(signature_key(signature), outcome);
    assert forall|other: Signature|
        table_of(longer).contains_key(other) <==> table_of(entries).insert(
            signature,
            outcome_view(outcome),
        ).contains_key(other) by {
        lemma_signature_key_injective(other, signature);
    }
    assert forall|other: Signature|
        table_of(longer).contains_key(other) implies #[trigger] table_of(longer)[other]
        == table_of(entries).insert(signature, outcome_view(outcome))[other] by {
        lemma_signature_key_injective(other, signature);
    }
    assert(table_of(longer) =~= table_of(entries).insert(signature, outcome_view(outcome)));
}

/// `HashSet::clone`: a set with the same elements.
#[verifier::external_body]
fn clone_keys(keys: &HashSet<u64>) -> (copy: HashSet<u64>)
    ensures
        copy@ == keys@,
{
    keys.clone()
}

/// The toggles of a search, the result of the last query, and the results
/// of all queries answered so far.
///
/// The table of results is never emptied: it is good for one adjacency
/// mapping only, the one that is handed to every call of
/// [`AlgorithmContext::compute_path`].
pub struct AlgorithmContext {
    pub is_marking_passed_edges: bool,
    pub algorithm_type: AlgorithmType,
    /// The heuristic weight of the hybrid search, in tenths.
    pub astar_weight: u32,
    pub total_cost: u64,
    pub use_manhattan: bool,
    selected_edges: HashSet<u64>,
    passed_edges: HashSet<u64>,
    failure: Option<PathError>,
    current_run_args: Option<RunArgs>,
    computed_runs: HashMap<u128, Result<RunOutput, PathError>>,
    searches: u64,
}

/// A query context as mathematical values.
pub struct ContextView {
    pub is_marking_passed_edges: bool,
    pub algorithm_type: AlgorithmType,
    pub astar_weight: u32,
    pub use_manhattan: bool,
    /// The result that the context shows: that of the last query, if it
    /// found a path, and else an empty one.
    pub current: RunOutputView,
    /// Why the last query found no path, if it found none.
    pub failure: Option<PathError>,
    /// The query last answered.
    pub last_query: Option<Signature>,
    /// The outcomes of the queries answered so far.
    pub table: Map<Signature, Result<RunOutputView, PathError>>,
    /// How many searches the context has run, up to the largest number
    /// that it counts.
    pub searches: u64,
}

impl ContextView {
    /// The query that the two nodes make with the toggles as they stand.
    pub open spec fn signature_for(self, start: u32, end: u32) -> Signature {
        Signature {
            start,
            end,
            mark_passed_edges: self.is_marking_passed_edges,
            algorithm: self.algorithm_type,
            heuristic_weight: self.astar_weight,
            use_manhattan: self.use_manhattan,
        }
    }

    /// The two nodes, with the toggles as they stand, make another query
    /// than the one last answered.
    pub open spec fn is_new_query(self, start: u32, end: u32) -> bool {
        self.last_query != Some(self.signature_for(start, end))
    }

    /// The outcome of the last query.
    pub open spec fn outcome(self) -> Result<RunOutputView, PathError> {
        match self.failure {
            Some(error) => Err(error),
            None => Ok(self.current),
        }
    }
}

/// The result shown where there is no path to show.
pub open spec fn nothing_found() -> RunOutputView {
    RunOutputView {
        selected_edges: Set::<u64>::empty(),
        passed_edges: Set::<u64>::empty(),
        total_cost: 0,
    }
}

/// Whether an outcome is a path or a failure, without the path.
pub open spec fn verdict(outcome: Result<RunOutputView, PathError>) -> Result<(), PathError> {
    match outcome {
        Ok(_) => Ok(()),
        Err(error) => Err(error),
    }
}

impl View for AlgorithmContext {
    type V = ContextView;

    closed spec fn view(&self) -> ContextView {
        ContextView {
            is_marking_passed_edges: self.is_marking_passed_edges,
            algorithm_type: self.algorithm_type,
            astar_weight: self.astar_weight,
            use_manhattan: self.use_manhattan,
            current: RunOutputView {
                selected_edges: self.selected_edges@,
                passed_edges: self.passed_edges@,
                total_cost: self.total_cost,
            },
            failure: self.failure,
            last_query: match self.current_run_args {
                Some(args) => Some(args@),
                None => None,
            },
            table: table_of(self.computed_runs@),
            searches: self.searches,
        }
    }
}

impl AlgorithmContext {
    /// No outcome, stored or shown, holds examined edges for a query that
    /// asked for none.
    pub closed spec fn wf(&self) -> bool {
        &&& unmarked_pass_nothing(self.computed_runs@)
        &&& match self.current_run_args {
            Some(args) => !args.mark_passed_edges ==> self.passed_edges@ == Set::<u64>::empty(),
            None => self.passed_edges@ == Set::<u64>::empty(),
        }
    }

    /// A query that does not ask for the examined edges is shown none, and
    /// has none in the table.
    pub proof fn lemma_unmarked_pass_nothing(&self)
        requires
            self.wf(),
        ensures
            match self@.last_query {
                Some(signature) => !signature.mark_passed_edges ==> self@.current.passed_edges
                    == Set::<u64>::empty(),
                None => self@.current.passed_edges == Set::<u64>::empty(),
            },
            forall|signature: Signature| #[trigger]
                self@.table.contains_key(signature) && !signature.mark_passed_edges ==> (
                self@.table[signature] matches Ok(out) ==> out.passed_edges == Set::<u64>::empty()),
    {
    }

    /// A context that has answered no query: the hybrid search with a
    /// weight of 1.0, Manhattan distances, no record of examined edges.
    pub fn new() -> (context: AlgorithmContext)
        ensures
            context.wf(),
            !context@.is_marking_passed_edges,
            context@.algorithm_type == AlgorithmType::HybridAStar,
            context@.astar_weight == WEIGHT_ONE,
            context@.use_manhattan,
            context@.current == nothing_found(),
            context@.failure is None,
            context@.last_query is None,
            context@.table == (Map::<Signature, Result<RunOutputView, PathError>>::empty()),
            context@.searches == 0,
    {
        let context = AlgorithmContext {
            is_marking_passed_edges: false,
            algorithm_type: AlgorithmType::HybridAStar,
            astar_weight: WEIGHT_ONE,
            total_cost: 0,
            use_manhattan: true,
            selected_edges: HashSet::new(),
            passed_edges: HashSet::new(),
            failure: None,
            current_run_args: None,
            computed_runs: HashMap::new(),
            searches: 0,
        };
        assert(context@.table =~= Map::<Signature, Result<RunOutputView, PathError>>::empty());
        context
    }

    /// Whether `edge` lies on the path shown.
    pub fn is_edge_selected(&self, edge: &Edge) -> (selected: bool)
        ensures
            selected == self@.current.selected_edges.contains(edge.spec_key()),
    {
        broadcast use group_hash_axioms;

        let key = edge.key();
        self.selected_edges.contains(&key)
    }

    /// Whether `edge` was examined by the search whose result is shown.
    pub fn is_edge_passed(&self, edge: &Edge) -> (passed: bool)
        ensures
            passed == self@.current.passed_edges.contains(edge.spec_key()),
    {
        broadcast use group_hash_axioms;

        let key = edge.key();
        self.passed_edges.contains(&key)
    }

    /// Whether the two nodes, with the toggles as they stand, make another
    /// query than the one last answered.
    pub fn is_new_args(&self, start: &Node, end: &Node) -> (is_new: bool)
        ensures
            is_new == self@.is_new_query(start.id, end.id),
    {
        match &self.current_run_args {
            None => true,
            Some(args) => {
                args.start.id != start.id || args.end.id != end.id || args.mark_passed_edges
                    != self.is_marking_passed_edges || args.algorithm != self.algorithm_type
                    || args.heuristic_weight != self.astar_weight || args.use_manhattan
                    != self.use_manhattan
            },
        }
    }

    /// Whether the search in use orders its frontier by a heuristic.
    pub fn is_using_astar(&self) -> (using: bool)
        ensures
            using == (self@.algorithm_type == AlgorithmType::AStar || self@.algorithm_type
                == AlgorithmType::HybridAStar),
    {
        self.algorithm_type == AlgorithmType::AStar || self.algorithm_type
            == AlgorithmType::HybridAStar
    }

    /// Whether the edges that a search examines are recorded.
    pub fn is_marking(&self) -> (marking: bool)
        ensures
            marking == self@.is_marking_passed_edges,
    {
        self.is_marking_passed_edges
    }

    /// How many searches the context has run.
    pub fn searches(&self) -> (count: u64)
        ensures
            count == self@.searches,
    {
        self.searches
    }

    /// How many edges the path shown has.
    pub fn selected_count(&self) -> (count: usize)
        ensures
            count == self@.current.selected_edges.len(),
    {
        broadcast use group_hash_axioms;

        self.selected_edges.len()
    }

    /// How many edges the search whose result is shown has examined.
    pub fn passed_count(&self) -> (count: usize)
        ensures
            count == self@.current.passed_edges.len(),
    {
        broadcast use group_hash_axioms;

        self.passed_edges.len()
    }

    /// Why the last query found no path, if it found none.
    pub fn failure(&self) -> (failure: Option<PathError>)
        ensures
            failure == self@.failure,
    {
        self.failure
    }

    /// Answers the query that `from` and `to` make with the toggles as they
    /// stand, shows its outcome, and returns whether a path was found.
    ///
    /// Nothing happens if that is the query last answered. Else the outcome
    /// is taken from the table, or, for a query not answered before, from a
    /// search on `neighbors`, whose outcome is added to the table. Where no
    /// path was found, the result shown is empty.
    pub fn compute_path(
        &mut self,
        from: &Node,
        to: &Node,
        neighbors: &HashMap<u32, Vec<Edge>>,
    ) -> (result: Result<(), PathError>)
        requires
            old(self).wf(),
        ensures
            final(self).wf(),
            computed(old(self)@, final(self)@, *from, *to, neighbors@, result),
    {
        broadcast use group_hash_axioms;

        if !self.is_new_args(from, to) {
            return match self.failure {
                Some(error) => Err(error),
                None => Ok(()),
            };
        }
        let args = RunArgs {
            start: *from,
            end: *to,
            mark_passed_edges: self.is_marking_passed_edges,
            algorithm: self.algorithm_type,
            heuristic_weight: self.astar_weight,
            use_manhattan: self.use_manhattan,
        };
        let key = args.key();
        if !self.computed_runs.contains_key(&key) {
            if self.searches < u64::MAX {
                self.searches = self.searches + 1;
            }
            let outcome = run_pathfinding_algorithm(
                from,
                to,
                neighbors,
                self.is_marking_passed_edges,
                self.algorithm_type,
                self.astar_weight,
                self.use_manhattan,
            );
            proof {
                lemma_table_insert(self.computed_runs@, args@, outcome);
                assert forall|signature: Signature|
                    self.computed_runs@.insert(key, outcome).contains_key(
                        #[trigger] signature_key(signature),
                    ) && !signature.mark_passed_edges implies (self.computed_runs@.insert(
                    key,
                    outcome,
                )[signature_key(signature)] matches Ok(out) ==> out.passed_edges@
                    == Set::<u64>::empty()) by {
                    lemma_signature_key_injective(signature, args@);
                }
            }
            self.computed_runs.insert(key, outcome);
        }
        // write the outcome from the table into the context
        let result: Result<(), PathError> = match self.computed_runs.get(&key).unwrap() {
            Ok(run_output) => {
                let selected_edges = clone_keys(&run_output.selected_edges);
                let passed_edges = clone_keys(&run_output.passed_edges);
                let total_cost = run_output.total_cost;
                self.selected_edges = selected_edges;
                self.passed_edges = passed_edges;
                self.total_cost = total_cost;
                self.failure = None;
                Ok(())
            },
            Err(error) => {
                let error = *error;
                self.selected_edges = HashSet::new();
                self.passed_edges = HashSet::new();
                self.total_cost = 0;
                self.failure = Some(error);
                Err(error)
            },
        };
        self.current_run_args = Some(args);
        result
    }
}

/// One more search than `count`, up to the largest number counted.
pub open spec fn one_more(count: u64) -> u64 {
    if count < u64::MAX {
        (count + 1) as u64
    } else {
        count
    }
}

/// `outcome` is what a search on `neighbors` from `from` to `to`, with the
/// toggles of `context`, may end with: the end of one of its runs, with
/// all that holds of the outcome of every search.
pub open spec fn searched(
    context: ContextView,
    from: Node,
    to: Node,
    neighbors: Map<u32, Vec<Edge>>,
    outcome: Result<RunOutputView, PathError>,
) -> bool {
    &&& runs_to(
        search_for(
            neighbors,
            from,
            to,
            context.algorithm_type,
            context.astar_weight,
            context.use_manhattan,
        ),
        context.is_marking_passed_edges,
        outcome,
    )
    &&& search_outcome(
        graph_of(neighbors),
        from.id,
        to.id,
        context.is_marking_passed_edges,
        orders_by_cost(context.algorithm_type, context.astar_weight),
        outcome,
    )
}

/// What a call of [`AlgorithmContext::compute_path`] for the nodes `from`
/// and `to` on the adjacency mapping `neighbors` makes of the context
/// `before`.
pub open spec fn computed(
    before: ContextView,
    after: ContextView,
    from: Node,
    to: Node,
    neighbors: Map<u32, Vec<Edge>>,
    result: Result<(), PathError>,
) -> bool {
    let signature = before.signature_for(from.id, to.id);
    &&& after.is_marking_passed_edges == before.is_marking_passed_edges
    &&& after.algorithm_type == before.algorithm_type
    &&& after.astar_weight == before.astar_weight
    &&& after.use_manhattan == before.use_manhattan
    &&& result == verdict(after.outcome())
    &&& if !before.is_new_query(from.id, to.id) {
        // the query last answered: nothing happens
        after == before
    } else {
        &&& after.last_query == Some(signature)
        &&& after.failure is Some ==> after.current == nothing_found()
        &&& if before.table.contains_key(signature) {
            // answered before: the outcome comes from the table
            &&& after.table == before.table
            &&& after.outcome() == before.table[signature]
            &&& after.searches == before.searches
        } else {
            // a search is run, and its outcome goes into the table
            &&& after.table == before.table.insert(signature, after.outcome())
            &&& after.searches == one_more(before.searches)
            &&& searched(before, from, to, neighbors, after.outcome())
        }
    }
}

/// Asking again what was just asked changes nothing: the second call runs
/// no search, and shows and returns what the first did.
pub proof fn lemma_compute_twice(
    before: ContextView,
    once: ContextView,
    twice: ContextView,
    from: Node,
    to: Node,
    neighbors: Map<u32, Vec<Edge>>,
    first: Result<(), PathError>,
    second: Result<(), PathError>,
)
    requires
        computed(before, once, from, to, neighbors, first),
        computed(once, twice, from, to, neighbors, second),
    ensures
        twice == once,
        second == first,
        once.searches <= before.searches + 1,
{
    assert(once.signature_for(from.id, to.id) == before.signature_for(from.id, to.id));
}

/// The table only grows: what a call finds in it, it leaves there.
pub proof fn lemma_table_keeps_outcomes(
    before: ContextView,
    after: ContextView,
    from: Node,
    to: Node,
    neighbors: Map<u32, Vec<Edge>>,
    result: Result<(), PathError>,
    signature: Signature,
)
    requires
        computed(before, after, from, to, neighbors, result),
        before.table.contains_key(signature),
    ensures
        after.table.contains_key(signature),
        after.table[signature] == before.table[signature],
{
}

} // verus!
