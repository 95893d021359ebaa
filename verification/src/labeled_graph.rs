//! Dependency graphs whose edges may be strict, and their stratification.

use petgraph::graph::{Graph, NodeIndex};
use petgraph::Directed;
use vstd::prelude::*;

verus! {

#[verifier::external_type_specification]
#[verifier::external_body]
#[verifier::reject_recursive_types(N)]
#[verifier::reject_recursive_types(E)]
#[verifier::reject_recursive_types(Ty)]
#[verifier::reject_recursive_types(Ix)]
pub struct ExGraph<N, E, Ty, Ix>(petgraph::graph::Graph<N, E, Ty, Ix>);

#[verifier::external_type_specification]
#[verifier::external_body]
pub struct ExDirected(petgraph::Directed);

/// The weights of the nodes of a graph, in the order of their indices.
pub uninterp spec fn graph_nodes(graph: Graph<usize, bool, Directed, usize>) -> Seq<usize>;

/// The edges of a graph in the order of their indices: source, target and weight.
pub uninterp spec fn graph_edges(graph: Graph<usize, bool, Directed, usize>) -> Seq<
    (usize, usize, bool),
>;

/// Makes a graph by the `Default` impl of [Graph], which has no nodes and no
/// edges.
#[verifier::external_body]
fn empty_graph() -> (graph: Graph<usize, bool, Directed, usize>)
    ensures
        graph_nodes(graph) == Seq::<usize>::empty(),
        graph_edges(graph) == Seq::<(usize, usize, bool)>::empty(),
{
    Graph::default()
}

/// Adds a node by [Graph::add_node], which gives it the next index and leaves
/// the edges as they are. With `usize` indices there is no limit on their number.
#[verifier::external_body]
fn push_node(graph: &mut Graph<usize, bool, Directed, usize>, weight: usize)
    ensures
        graph_nodes(*final(graph)) == graph_nodes(*old(graph)).push(weight),
        graph_edges(*final(graph)) == graph_edges(*old(graph)),
{
    graph.add_node(weight);
}

/// Adds an edge between two nodes by [Graph::add_edge], which panics where one of
/// them does not exist, gives the edge the next index, even where the two nodes
/// have an edge already, and leaves the nodes as they are.
#[verifier::external_body]
fn push_edge(
    graph: &mut Graph<usize, bool, Directed, usize>,
    source: usize,
    target: usize,
    weight: bool,
)
    requires
        source < graph_nodes(*old(graph)).len(),
        target < graph_nodes(*old(graph)).len(),
    ensures
        graph_nodes(*final(graph)) == graph_nodes(*old(graph)),
        graph_edges(*final(graph)) == graph_edges(*old(graph)).push((source, target, weight)),
{
    graph.add_edge(NodeIndex::new(source), NodeIndex::new(target), weight);
}

/// Lists the edges by [Graph::raw_edges], which gives them in the order of their
/// indices, each with its source, its target and its weight.
#[verifier::external_body]
fn list_edges(graph: &Graph<usize, bool, Directed, usize>) -> (edges: Vec<(usize, usize, bool)>)
    ensures
        edges@ == graph_edges(*graph),
{
    let edges = graph.raw_edges().iter();
    edges.map(|edge| (edge.source().index(), edge.target().index(), edge.weight)).collect()
}

/// How a rule depends on another one.
#[derive(Clone, Copy, Debug, PartialEq, Eq, PartialOrd, Ord, Hash, Structural)]
pub enum EdgeLabel {
    /// The target uses what the source derives.
    Positive,
    /// The target needs all of what the source derives.
    Negative,
}

/// How many levels an edge with the given label has to climb.
pub open spec fn climb(label: EdgeLabel) -> nat {
    match label {
        EdgeLabel::Positive => 0,
        EdgeLabel::Negative => 1,
    }
}

/// Nodes, which are the numbers below a count, and labelled edges between them.
pub struct GraphView {
    pub nodes: nat,
    pub edges: Seq<(usize, usize, EdgeLabel)>,
}

impl GraphView {
    /// Whether every edge is between nodes.
    pub open spec fn wf(self) -> bool {
        forall|i: int|
            0 <= i < self.edges.len() ==> (#[trigger] self.edges[i]).0 < self.nodes
                && self.edges[i].1 < self.nodes
    }
}

/// Whether `levels` gives each node a level such that no edge leads downwards,
/// and negative edges lead upwards.
pub open spec fn is_stratification(graph: GraphView, levels: Seq<nat>) -> bool {
    &&& levels.len() == graph.nodes
    &&& forall|i: int|
        0 <= i < graph.edges.len() ==> levels[(#[trigger] graph.edges[i]).0 as int] + climb(
            graph.edges[i].2,
        ) <= levels[graph.edges[i].1 as int]
}

/// Whether a graph can be stratified.
pub open spec fn stratifiable(graph: GraphView) -> bool {
    exists|levels: Seq<nat>| is_stratification(graph, levels)
}

/// Whether every level of `left` is at most that of `right`.
pub open spec fn below(left: Seq<nat>, right: Seq<nat>) -> bool {
    &&& left.len() == right.len()
    &&& forall|i: int| 0 <= i < left.len() ==> #[trigger] left[i] <= right[i]
}

/// Whether `levels` is the stratification in which every node is as low as it
/// can be.
pub open spec fn is_least_stratification(graph: GraphView, levels: Seq<nat>) -> bool {
    &&& is_stratification(graph, levels)
    &&& forall|other: Seq<nat>| #[trigger]
        is_stratification(graph, other) ==> below(levels, other)
}

/// The nodes of one level among the first `count` nodes, in ascending order.
pub open spec fn level_nodes(levels: Seq<nat>, level: nat, count: nat) -> Seq<usize>
    decreases count,
{
    if count == 0 {
        Seq::empty()
    } else {
        let front = level_nodes(levels, level, (count - 1) as nat);
        if levels[count - 1] == level {
            front.push((count - 1) as usize)
        } else {
            front
        }
    }
}

/// The number of levels.
pub open spec fn level_count(levels: Seq<nat>) -> nat
    decreases levels.len(),
{
    if levels.len() == 0 {
        0
    } else if levels.last() < level_count(levels.drop_last()) {
        level_count(levels.drop_last())
    } else {
        levels.last() + 1
    }
}

/// The nodes of each level.
pub open spec fn strata_of(levels: Seq<nat>) -> Seq<Seq<usize>> {
    Seq::new(level_count(levels), |level: int| level_nodes(levels, level as nat, levels.len()))
}

/// The strata of a graph, from the lowest to the highest, if it has any.
pub open spec fn stratified(graph: GraphView) -> Option<Seq<Seq<usize>>> {
    if stratifiable(graph) {
        Some(strata_of(choose|levels: Seq<nat>| is_least_stratification(graph, levels)))
    } else {
        None
    }
}

proof fn lemma_least_unique(graph: GraphView, left: Seq<nat>, right: Seq<nat>)
    requires
        is_least_stratification(graph, left),
        is_least_stratification(graph, right),
    ensures
        left == right,
{
    assert(below(left, right) && below(right, left));
    assert forall|i: int| 0 <= i < left.len() implies left[i] == right[i] by {
        assert(left[i] <= right[i]);
        assert(right[i] <= left[i]);
    }
    assert(left =~= right);
}

/// The values of `levels` that are below `bound`.
spec fn values_below(levels: Seq<nat>, bound: nat) -> Set<nat> {
    levels.to_set().filter(|value: nat| value < bound)
}

/// The levels by their rank among all that occur.
spec fn ranks(levels: Seq<nat>) -> Seq<nat> {
    Seq::new(levels.len(), |i: int| values_below(levels, levels[i]).len())
}

proof fn lemma_ranks(graph: GraphView, levels: Seq<nat>)
    requires
        graph.wf(),
        is_stratification(graph, levels),
    ensures
        is_stratification(graph, ranks(levels)),
        forall|i: int| 0 <= i < levels.len() ==> #[trigger] ranks(levels)[i] < levels.len(),
{
    let all = levels.to_set();
    assert forall|i: int| 0 <= i < levels.len() implies #[trigger] ranks(levels)[i]
        < levels.len() by {
        let smaller = values_below(levels, levels[i]);
        assert(all.contains(levels[i]));
        assert(smaller.subset_of(all.remove(levels[i])));
        vstd::set_lib::lemma_len_subset(smaller, all.remove(levels[i]));
        levels.lemma_cardinality_of_set();
    }
    assert forall|i: int| 0 <= i < graph.edges.len() implies ranks(levels)[(
    #[trigger] graph.edges[i]).0 as int] + climb(graph.edges[i].2) <= ranks(
        levels,
    )[graph.edges[i].1 as int] by {
        let source = levels[graph.edges[i].0 as int];
        let target = levels[graph.edges[i].1 as int];
        let low = values_below(levels, source);
        let high = values_below(levels, target);
        if source == target {
            assert(climb(graph.edges[i].2) == 0);
        } else {
            assert(all.contains(source));
            assert(low.insert(source).subset_of(high));
            vstd::set_lib::lemma_len_subset(low.insert(source), high);
        }
    }
}

/// A graph that can be stratified can be stratified with fewer levels than it has
/// nodes to spare.
proof fn lemma_few_levels(graph: GraphView)
    requires
        graph.wf(),
        stratifiable(graph),
    ensures
        exists|levels: Seq<nat>| #[trigger]
            is_stratification(graph, levels) && forall|i: int|
                0 <= i < levels.len() ==> #[trigger] levels[i] < graph.nodes,
{
    let levels = choose|levels: Seq<nat>| is_stratification(graph, levels);
    lemma_ranks(graph, levels);
    assert(is_stratification(graph, ranks(levels)));
}

/// In the least stratification every level has a node.
pub proof fn lemma_no_gaps(graph: GraphView, levels: Seq<nat>, level: nat)
    requires
        graph.wf(),
        is_least_stratification(graph, levels),
        level < level_count(levels),
    ensures
        exists|node: int| 0 <= node < levels.len() && #[trigger] levels[node] == level,
{
    if forall|node: int| 0 <= node < levels.len() ==> #[trigger] levels[node] != level {
        let other = Seq::new(
            levels.len(),
            |i: int|
                if levels[i] > level {
                    (levels[i] - 1) as nat
                } else {
                    levels[i]
                },
        );
        assert forall|i: int| 0 <= i < graph.edges.len() implies other[(
        #[trigger] graph.edges[i]).0 as int] + climb(graph.edges[i].2)
            <= other[graph.edges[i].1 as int] by {
            assert(levels[graph.edges[i].0 as int] != level);
            assert(levels[graph.edges[i].1 as int] != level);
        }
        assert(is_stratification(graph, other));
        lemma_level_count(levels);
        let top = choose|node: int|
            0 <= node < levels.len() && #[trigger] levels[node] + 1 == level_count(levels);
        assert(levels[top] <= other[top]);
        assert(levels[top] != level);
    }
}

/// Every level is below the number of levels, and the highest one occurs.
pub proof fn lemma_level_count(levels: Seq<nat>)
    ensures
        forall|i: int| 0 <= i < levels.len() ==> #[trigger] levels[i] < level_count(levels),
        level_count(levels) > 0 ==> exists|node: int|
            0 <= node < levels.len() && #[trigger] levels[node] + 1 == level_count(levels),
    decreases levels.len(),
{
    if levels.len() > 0 {
        let front = levels.drop_last();
        lemma_level_count(front);
        assert forall|i: int| 0 <= i < levels.len() implies #[trigger] levels[i] < level_count(
            levels,
        ) by {
            if i < front.len() {
                assert(front[i] < level_count(front));
            }
        }
        if levels.last() < level_count(front) {
            let node = choose|node: int|
                0 <= node < front.len() && #[trigger] front[node] + 1 == level_count(front);
            assert(levels[node] + 1 == level_count(levels));
        } else {
            assert(levels[levels.len() - 1] + 1 == level_count(levels));
        }
    }
}

/// The nodes of a level are those that have it, each once and in ascending order.
pub proof fn lemma_level_nodes(levels: Seq<nat>, level: nat, count: nat)
    requires
        count <= levels.len() <= usize::MAX + 1,
    ensures
        forall|node: usize| #[trigger]
            level_nodes(levels, level, count).contains(node) <==> node < count
                && levels[node as int] == level,
        forall|i: int, j: int|
            0 <= i < j < level_nodes(levels, level, count).len() ==> level_nodes(
                levels,
                level,
                count,
            )[i] < level_nodes(levels, level, count)[j],
    decreases count,
{
    let nodes = level_nodes(levels, level, count);
    if count > 0 {
        let front = level_nodes(levels, level, (count - 1) as nat);
        let last = (count - 1) as usize;
        lemma_level_nodes(levels, level, (count - 1) as nat);
        if levels[count - 1] == level {
            assert forall|node: usize| #[trigger] nodes.contains(node) <==> node < count
                && levels[node as int] == level by {
                if nodes.contains(node) {
                    let place = choose|i: int| 0 <= i < nodes.len() && nodes[i] == node;
                    if place < front.len() {
                        assert(front[place] == node);
                        assert(front.contains(node));
                    }
                }
                if node < count && levels[node as int] == level {
                    if node < last {
                        assert(front.contains(node));
                        let place = choose|i: int| 0 <= i < front.len() && front[i] == node;
                        assert(nodes[place] == node);
                    } else {
                        assert(nodes[front.len() as int] == node);
                    }
                }
            }
            assert forall|i: int, j: int| 0 <= i < j < nodes.len() implies nodes[i]
                < nodes[j] by {
                if j == front.len() {
                    assert(front[i] == nodes[i]);
                    assert(front.contains(front[i]));
                } else {
                    assert(front[i] < front[j]);
                }
            }
        } else {
            assert forall|node: usize| #[trigger] nodes.contains(node) <==> node < count
                && levels[node as int] == level by {
                assert(front.contains(node) <==> node < count - 1 && levels[node as int] == level);
            }
        }
    } else {
        assert forall|node: usize| #[trigger] nodes.contains(node) <==> node < count
            && levels[node as int] == level by {
            assert(nodes.len() == 0);
        }
    }
}

/// How much all levels together can still grow below `limit`.
spec fn slack(levels: Seq<usize>, limit: nat) -> nat
    decreases levels.len(),
{
    if levels.len() == 0 {
        0
    } else {
        let room = if levels.last() < limit {
            (limit - levels.last()) as nat
        } else {
            0
        };
        slack(levels.drop_last(), limit) + room
    }
}

proof fn lemma_slack_update(levels: Seq<usize>, limit: nat, place: int, level: usize)
    requires
        0 <= place < levels.len(),
        levels[place] < level < limit,
    ensures
        slack(levels.update(place, level), limit) < slack(levels, limit),
    decreases levels.len(),
{
    let updated = levels.update(place, level);
    if place == levels.len() - 1 {
        assert(updated.drop_last() =~= levels.drop_last());
    } else {
        assert(updated.drop_last() =~= levels.drop_last().update(place, level));
        lemma_slack_update(levels.drop_last(), limit, place, level);
    }
}

/// Levels as mathematical numbers.
spec fn levels_view(levels: Seq<usize>) -> Seq<nat> {
    Seq::new(levels.len(), |i: int| levels[i] as nat)
}

spec fn pending(changed: bool) -> nat {
    if changed {
        1
    } else {
        0
    }
}

fn climb_of(label: EdgeLabel) -> (steps: usize)
    ensures
        steps == climb(label),
{
    match label {
        EdgeLabel::Positive => 0,
        EdgeLabel::Negative => 1,
    }
}

/// Computes the least stratification by raising levels until every edge is
/// satisfied, or some level is too high.
fn least_levels(count: usize, edges: &Vec<(usize, usize, EdgeLabel)>) -> (levels: Option<Vec<usize>>)
    requires
        (GraphView { nodes: count as nat, edges: edges@ }).wf(),
    ensures
        ({
            let graph = GraphView { nodes: count as nat, edges: edges@ };
            match levels {
                Some(levels) => is_least_stratification(graph, levels_view(levels@)),
                None => !stratifiable(graph),
            }
        }),
{
    let ghost graph = GraphView { nodes: count as nat, edges: edges@ };
    let mut levels: Vec<usize> = Vec::new();
    while levels.len() < count
        invariant
            levels@.len() <= count,
            forall|i: int| 0 <= i < levels@.len() ==> levels@[i] == 0,
        decreases count - levels@.len(),
    {
        levels.push(0);
    }
    let mut changed = true;
    while changed
        invariant
            graph == (GraphView { nodes: count as nat, edges: edges@ }),
            graph.wf(),
            levels@.len() == count,
            forall|i: int| 0 <= i < levels@.len() ==> levels@[i] < count,
            forall|other: Seq<nat>| #[trigger]
                is_stratification(graph, other) ==> below(levels_view(levels@), other),
            !changed ==> is_stratification(graph, levels_view(levels@)),
        decreases slack(levels@, count as nat), pending(changed),
    {
        changed = false;
        let ghost start = levels@;
        let mut index: usize = 0;
        while index < edges.len()
            invariant
                graph == (GraphView { nodes: count as nat, edges: edges@ }),
                graph.wf(),
                index <= edges@.len(),
                levels@.len() == count,
                forall|i: int| 0 <= i < levels@.len() ==> levels@[i] < count,
                forall|other: Seq<nat>| #[trigger]
                    is_stratification(graph, other) ==> below(levels_view(levels@), other),
                changed ==> slack(levels@, count as nat) < slack(start, count as nat),
                !changed ==> levels@ == start,
                !changed ==> forall|i: int|
                    0 <= i < index ==> levels@[(#[trigger] edges@[i]).0 as int] + climb(
                        edges@[i].2,
                    ) <= levels@[edges@[i].1 as int],
            decreases edges@.len() - index,
        {
            let (source, target, label): (usize, usize, EdgeLabel) = edges[index];
            assert(graph.edges[index as int].0 == source && graph.edges[index as int].1 == target);
            let needed: usize = levels[source] + climb_of(label);
            if needed > levels[target] {
                let ghost before = levels@;
                assert forall|other: Seq<nat>| #[trigger]
                    is_stratification(graph, other) implies needed <= other[target as int] by {
                    assert(below(levels_view(before), other));
                    assert(levels_view(before)[source as int] <= other[source as int]);
                    assert(other[graph.edges[index as int].0 as int] + climb(label)
                        <= other[target as int]);
                }
                if needed >= count {
                    proof {
                        if stratifiable(graph) {
                            lemma_few_levels(graph);
                            let few = choose|few: Seq<nat>| #[trigger]
                                is_stratification(graph, few) && forall|i: int|
                                    0 <= i < few.len() ==> #[trigger] few[i] < graph.nodes;
                            assert(needed <= few[target as int]);
                        }
                    }
                    return None;
                }
                proof {
                    lemma_slack_update(before, count as nat, target as int, needed);
                }
                levels.set(target, needed);
                changed = true;
                assert forall|other: Seq<nat>| #[trigger]
                    is_stratification(graph, other) implies below(
                    levels_view(levels@),
                    other,
                ) by {
                    assert(below(levels_view(before), other));
                    assert forall|i: int| 0 <= i < levels@.len() implies #[trigger] levels_view(
                        levels@,
                    )[i] <= other[i] by {
                        assert(levels_view(before)[i] <= other[i]);
                    }
                }
            }
            index = index + 1;
        }
    }
    Some(levels)
}

/// Sorts the nodes by their levels.
fn gather_strata(levels: &Vec<usize>) -> (strata: Vec<Vec<usize>>)
    requires
        forall|i: int| 0 <= i < levels@.len() ==> levels@[i] < levels@.len(),
    ensures
        strata_view(strata@) == strata_of(levels_view(levels@)),
{
    let ghost views = levels_view(levels@);
    let mut count: usize = 0;
    let mut index: usize = 0;
    while index < levels.len()
        invariant
            index <= levels@.len(),
            views == levels_view(levels@),
            count == level_count(views.take(index as int)),
            count <= levels@.len(),
            forall|i: int| 0 <= i < levels@.len() ==> levels@[i] < levels@.len(),
        decreases levels@.len() - index,
    {
        proof {
            let now = views.take(index + 1);
            assert(now.drop_last() =~= views.take(index as int));
            assert(now.last() == levels@[index as int]);
        }
        if levels[index] >= count {
            count = levels[index] + 1;
        }
        index = index + 1;
    }
    assert(views.take(index as int) =~= views);
    let mut strata: Vec<Vec<usize>> = Vec::new();
    while strata.len() < count
        invariant
            views == levels_view(levels@),
            strata@.len() <= count,
            forall|k: int|
                0 <= k < strata@.len() ==> (#[trigger] strata@[k])@ == level_nodes(
                    views,
                    k as nat,
                    views.len(),
                ),
        decreases count - strata@.len(),
    {
        let level: usize = strata.len();
        let mut nodes: Vec<usize> = Vec::new();
        let mut node: usize = 0;
        while node < levels.len()
            invariant
                views == levels_view(levels@),
                node <= levels@.len(),
                nodes@ == level_nodes(views, level as nat, node as nat),
            decreases levels@.len() - node,
        {
            if levels[node] == level {
                nodes.push(node);
            }
            node = node + 1;
        }
        strata.push(nodes);
    }
    assert(strata_view(strata@) =~= strata_of(views));
    strata
}

/// What a list of strata holds.
pub open spec fn strata_view(strata: Seq<Vec<usize>>) -> Seq<Seq<usize>> {
    Seq::new(strata.len(), |i: int| strata[i]@)
}

/// The label of an edge with the given weight.
pub open spec fn label_of(negative: bool) -> EdgeLabel {
    if negative {
        EdgeLabel::Negative
    } else {
        EdgeLabel::Positive
    }
}

spec fn labelled(edges: Seq<(usize, usize, bool)>) -> Seq<(usize, usize, EdgeLabel)> {
    Seq::new(edges.len(), |i: int| (edges[i].0, edges[i].1, label_of(edges[i].2)))
}

/// A graph of rules, in which negative edges are told from positive ones.
pub struct NegationGraph {
    graph: Graph<usize, bool, Directed, usize>,
    nodes: usize,
}

impl View for NegationGraph {
    type V = GraphView;

    closed spec fn view(&self) -> GraphView {
        GraphView { nodes: self.nodes as nat, edges: labelled(graph_edges(self.graph)) }
    }
}

impl NegationGraph {
    /// Whether the nodes are numbered, and every edge is between them.
    pub closed spec fn wf(&self) -> bool {
        &&& graph_nodes(self.graph) == Seq::new(self.nodes as nat, |i: int| i as usize)
        &&& self@.wf()
    }

    /// A graph with the given number of nodes and no edges.
    pub fn with_nodes(nodes: usize) -> (graph: Self)
        ensures
            graph.wf(),
            graph@.nodes == nodes,
            graph@.edges == Seq::<(usize, usize, EdgeLabel)>::empty(),
    {
        let mut graph = empty_graph();
        let mut node: usize = 0;
        assert(graph_nodes(graph) =~= Seq::new(0, |i: int| i as usize));
        while node < nodes
            invariant
                node <= nodes,
                graph_nodes(graph) == Seq::new(node as nat, |i: int| i as usize),
                graph_edges(graph) == Seq::<(usize, usize, bool)>::empty(),
            decreases nodes - node,
        {
            push_node(&mut graph, node);
            node = node + 1;
            assert(graph_nodes(graph) =~= Seq::new(node as nat, |i: int| i as usize));
        }
        let graph = NegationGraph { graph, nodes };
        assert(graph@.edges =~= Seq::<(usize, usize, EdgeLabel)>::empty());
        graph
    }

    /// Adds an edge between two nodes.
    pub fn add_edge(&mut self, source: usize, target: usize, label: EdgeLabel)
        requires
            old(self).wf(),
            source < old(self)@.nodes,
            target < old(self)@.nodes,
        ensures
            final(self).wf(),
            final(self)@.nodes == old(self)@.nodes,
            final(self)@.edges == old(self)@.edges.push((source, target, label)),
    {
        push_edge(&mut self.graph, source, target, label == EdgeLabel::Negative);
        assert(self@.edges =~= old(self)@.edges.push((source, target, label)));
    }

    /// The edges, in the order in which they were added.
    pub fn edges(&self) -> (edges: Vec<(usize, usize, EdgeLabel)>)
        ensures
            edges@ == self@.edges,
    {
        let raw = list_edges(&self.graph);
        let mut edges: Vec<(usize, usize, EdgeLabel)> = Vec::new();
        let mut index: usize = 0;
        while index < raw.len()
            invariant
                index <= raw@.len(),
                raw@ == graph_edges(self.graph),
                edges@ =~= self@.edges.take(index as int),
            decreases raw@.len() - index,
        {
            let (source, target, negative): (usize, usize, bool) = raw[index];
            edges.push(
                (
                    source,
                    target,
                    if negative {
                        EdgeLabel::Negative
                    } else {
                        EdgeLabel::Positive
                    },
                ),
            );
            index = index + 1;
        }
        edges
    }

    /// The strata of this graph, from the lowest to the highest, or `None` where
    /// some negative edge lies on a cycle. Every node is in the lowest stratum
    /// that it can be in.
    pub fn stratify(&self) -> (strata: Option<Vec<Vec<usize>>>)
        requires
            self.wf(),
        ensures
            match stratified(self@) {
                Some(expected) => strata matches Some(strata) && strata_view(strata@) == expected,
                None => strata is None,
            },
    {
        let edges = self.edges();
        match least_levels(self.nodes, &edges) {
            Some(levels) => {
                proof {
                    let views = levels_view(levels@);
                    assert(stratifiable(self@));
                    let least = choose|levels: Seq<nat>| is_least_stratification(self@, levels);
                    lemma_least_unique(self@, views, least);
                    lemma_few_levels(self@);
                    let few = choose|few: Seq<nat>| #[trigger]
                        is_stratification(self@, few) && forall|i: int|
                            0 <= i < few.len() ==> #[trigger] few[i] < self@.nodes;
                    assert(below(views, few));
                    assert forall|i: int| 0 <= i < levels@.len() implies levels@[i]
                        < levels@.len() by {
                        assert(views[i] <= few[i]);
                    }
                }
                Some(gather_strata(&levels))
            },
            None => None,
        }
    }
}

/// Whether some stratification gives a node the given level.
spec fn reaches(graph: GraphView, node: int, level: nat) -> bool {
    exists|levels: Seq<nat>| #[trigger] is_stratification(graph, levels) && levels[node] == level
}

spec fn is_lowest(graph: GraphView, node: int, level: nat) -> bool {
    &&& reaches(graph, node, level)
    &&& forall|other: nat| #[trigger] reaches(graph, node, other) ==> level <= other
}

proof fn lemma_lowest_exists(graph: GraphView, node: int, level: nat)
    requires
        reaches(graph, node, level),
    ensures
        exists|lowest: nat| is_lowest(graph, node, lowest),
    decreases level,
{
    if exists|other: nat| other < level && #[trigger] reaches(graph, node, other) {
        let other = choose|other: nat| other < level && #[trigger] reaches(graph, node, other);
        lemma_lowest_exists(graph, node, other);
    } else {
        assert(is_lowest(graph, node, level));
    }
}

/// A graph that can be stratified has a least stratification.
pub proof fn lemma_least_exists(graph: GraphView)
    requires
        graph.wf(),
        stratifiable(graph),
    ensures
        exists|levels: Seq<nat>| is_least_stratification(graph, levels),
{
    let some = choose|levels: Seq<nat>| is_stratification(graph, levels);
    let least = Seq::new(
        graph.nodes,
        |node: int| choose|level: nat| is_lowest(graph, node, level),
    );
    assert forall|node: int| 0 <= node < graph.nodes implies #[trigger] is_lowest(
        graph,
        node,
        least[node],
    ) by {
        assert(reaches(graph, node, some[node]));
        lemma_lowest_exists(graph, node, some[node]);
    }
    assert forall|other: Seq<nat>| #[trigger] is_stratification(graph, other) implies below(
        least,
        other,
    ) by {
        assert forall|node: int| 0 <= node < least.len() implies #[trigger] least[node]
            <= other[node] by {
            assert(is_lowest(graph, node, least[node]));
            assert(reaches(graph, node, other[node]));
        }
    }
    assert forall|i: int| 0 <= i < graph.edges.len() implies least[(
    #[trigger] graph.edges[i]).0 as int] + climb(graph.edges[i].2)
        <= least[graph.edges[i].1 as int] by {
        let target = graph.edges[i].1 as int;
        assert(is_lowest(graph, target, least[target]));
        let best = choose|levels: Seq<nat>| #[trigger]
            is_stratification(graph, levels) && levels[target] == least[target];
        assert(below(least, best));
        assert(least[graph.edges[i].0 as int] <= best[graph.edges[i].0 as int]);
    }
    assert(is_least_stratification(graph, least));
}

/// The levels behind the strata of a graph.
pub proof fn lemma_strata_levels(graph: GraphView, strata: Seq<Seq<usize>>) -> (levels: Seq<nat>)
    requires
        graph.wf(),
        graph.nodes <= usize::MAX,
        stratified(graph) == Some(strata),
    ensures
        is_least_stratification(graph, levels),
        strata == strata_of(levels),
        forall|k: int, node: usize|
            0 <= k < strata.len() ==> (#[trigger] strata[k].contains(node) <==> node < graph.nodes
                && levels[node as int] == k),
{
    lemma_least_exists(graph);
    let levels = choose|levels: Seq<nat>| is_least_stratification(graph, levels);
    assert forall|k: int, node: usize| 0 <= k < strata.len() implies (
    #[trigger] strata[k].contains(node) <==> node < graph.nodes && levels[node as int] == k) by {
        lemma_level_nodes(levels, k as nat, levels.len());
    }
    levels
}

/// Whether some stratum holds a node.
pub open spec fn has_stratum(strata: Seq<Seq<usize>>, node: usize) -> bool {
    exists|k: int| 0 <= k < strata.len() && #[trigger] strata[k].contains(node)
}

/// Every node is in exactly one stratum, no stratum is empty, and in each the
/// nodes ascend.
pub proof fn lemma_strata_partition(graph: GraphView, strata: Seq<Seq<usize>>)
    requires
        graph.wf(),
        graph.nodes <= usize::MAX,
        stratified(graph) == Some(strata),
    ensures
        forall|node: usize| node < graph.nodes ==> #[trigger] has_stratum(strata, node),
        forall|j: int, k: int, node: usize|
            0 <= j < strata.len() && 0 <= k < strata.len() && #[trigger] strata[j].contains(node)
                && #[trigger] strata[k].contains(node) ==> j == k,
        forall|k: int| 0 <= k < strata.len() ==> (#[trigger] strata[k]).len() > 0,
        forall|k: int, node: usize|
            0 <= k < strata.len() && #[trigger] strata[k].contains(node) ==> node < graph.nodes,
        forall|k: int, i: int, j: int|
            0 <= k < strata.len() && 0 <= i < j < strata[k].len() ==> strata[k][i] < strata[k][j],
{
    let levels = lemma_strata_levels(graph, strata);
    lemma_level_count(levels);
    assert forall|node: usize| node < graph.nodes implies #[trigger] has_stratum(strata, node) by {
        assert(strata[levels[node as int] as int].contains(node));
    }
    assert forall|k: int| 0 <= k < strata.len() implies (#[trigger] strata[k]).len() > 0 by {
        lemma_no_gaps(graph, levels, k as nat);
        let node = choose|node: int| 0 <= node < levels.len() && #[trigger] levels[node] == k;
        assert(strata[k].contains(node as usize));
    }
    assert forall|k: int, i: int, j: int|
        0 <= k < strata.len() && 0 <= i < j < strata[k].len() implies strata[k][i]
        < strata[k][j] by {
        lemma_level_nodes(levels, k as nat, levels.len());
    }
}

/// No edge leads to a lower stratum, and negative edges lead to a higher one.
pub proof fn lemma_edges_climb_strata(
    graph: GraphView,
    strata: Seq<Seq<usize>>,
    edge: int,
    source: int,
    target: int,
)
    requires
        graph.wf(),
        graph.nodes <= usize::MAX,
        stratified(graph) == Some(strata),
        0 <= edge < graph.edges.len(),
        0 <= source < strata.len(),
        0 <= target < strata.len(),
        strata[source].contains(graph.edges[edge].0),
        strata[target].contains(graph.edges[edge].1),
    ensures
        source + climb(graph.edges[edge].2) <= target,
        source <= target,
        graph.edges[edge].2 == EdgeLabel::Negative ==> source < target,
{
    let levels = lemma_strata_levels(graph, strata);
    assert(levels[graph.edges[edge].0 as int] + climb(graph.edges[edge].2)
        <= levels[graph.edges[edge].1 as int]);
}

/// Whether no edge leads from a higher to a lower level, and no negative edge stays
/// on its level.
pub open spec fn rises(graph: GraphView, levels: Seq<nat>) -> bool {
    &&& levels.len() == graph.nodes
    &&& forall|i: int|
        0 <= i < graph.edges.len() ==> levels[(#[trigger] graph.edges[i]).0 as int]
            <= levels[graph.edges[i].1 as int]
    &&& forall|i: int|
        0 <= i < graph.edges.len() && (#[trigger] graph.edges[i]).2 == EdgeLabel::Negative
            ==> levels[graph.edges[i].0 as int] < levels[graph.edges[i].1 as int]
}

proof fn lemma_rises(graph: GraphView, levels: Seq<nat>)
    ensures
        rises(graph, levels) <==> is_stratification(graph, levels),
{
    if rises(graph, levels) {
        assert forall|i: int| 0 <= i < graph.edges.len() implies levels[(
        #[trigger] graph.edges[i]).0 as int] + climb(graph.edges[i].2)
            <= levels[graph.edges[i].1 as int] by {}
    }
}

/// A graph has strata exactly where its nodes can be given levels along which all
/// edges rise; the strata are such levels, and no node is higher than it has to be.
pub proof fn lemma_nodes_are_lowest(graph: GraphView)
    requires
        graph.wf(),
        graph.nodes <= usize::MAX,
    ensures
        stratified(graph) is Some <==> exists|levels: Seq<nat>| rises(graph, levels),
        stratified(graph) matches Some(strata) ==> exists|levels: Seq<nat>|
            {
                &&& #[trigger] rises(graph, levels)
                &&& forall|k: int, node: usize|
                    0 <= k < strata.len() ==> (#[trigger] strata[k].contains(node) <==> node
                        < graph.nodes && levels[node as int] == k)
                &&& forall|i: int|
                    0 <= i < levels.len() ==> #[trigger] levels[i] < strata.len()
                &&& forall|other: Seq<nat>, i: int|
                    #[trigger] rises(graph, other) && 0 <= i < levels.len()
                        ==> #[trigger] levels[i] <= other[i]
            },
{
    if exists|levels: Seq<nat>| rises(graph, levels) {
        let levels = choose|levels: Seq<nat>| rises(graph, levels);
        lemma_rises(graph, levels);
    }
    if let Some(strata) = stratified(graph) {
        let some = choose|levels: Seq<nat>| is_stratification(graph, levels);
        lemma_rises(graph, some);
        let levels = lemma_strata_levels(graph, strata);
        lemma_rises(graph, levels);
        lemma_level_count(levels);
        assert forall|other: Seq<nat>, i: int| #[trigger]
            rises(graph, other) && 0 <= i < levels.len() implies #[trigger] levels[i]
            <= other[i] by {
            lemma_rises(graph, other);
            assert(below(levels, other));
        }
    }
}

/// What a list of strata says is the nodes of each of them, in their order.
pub proof fn lemma_strata_say_their_parts(strata: Seq<Vec<usize>>, place: int)
    ensures
        strata_view(strata).len() == strata.len(),
        0 <= place < strata.len() ==> strata_view(strata)[place] == strata[place]@,
        label_of(true) == EdgeLabel::Negative,
        label_of(false) == EdgeLabel::Positive,
{
}

} // verus!
