//! A strategy that divides rules into strata and finishes one after the other.

use vstd::prelude::*;

use crate::labeled_graph::{
    below, climb, has_stratum, is_least_stratification, is_stratification, lemma_least_exists,
    lemma_level_count, lemma_level_nodes, lemma_strata_levels, lemma_strata_partition, strata_of, strata_view,
    stratifiable, stratified, EdgeLabel, GraphView, NegationGraph,
};
use crate::rules::{have_common_predicate, needs, needs_all, shares, NormalizedRule, RuleView};
use crate::selection_strategy::strategy_round_robin::{
    lemma_rules_take_turns, RoundRobinView, StrategyRoundRobin,
};
use crate::selection_strategy::{
    after_calls, fruitless_round, rules_view, RuleSelectionStrategy, SelectionStrategyError,
};

verus! {

/// Whether the rule `body` depends on the rule `head` as the label says.
pub open spec fn depends(head: RuleView, body: RuleView, label: EdgeLabel) -> bool {
    match label {
        EdgeLabel::Positive => needs(head, body),
        EdgeLabel::Negative => needs_all(head, body),
    }
}

/// Whether the edges of a graph are the dependencies between rules, each once.
pub open spec fn is_dependency_graph(rules: Seq<RuleView>, graph: GraphView) -> bool {
    &&& graph.wf()
    &&& graph.nodes == rules.len()
    &&& graph.edges.no_duplicates()
    &&& forall|head: usize, body: usize, label: EdgeLabel| #[trigger]
        graph.edges.contains((head, body, label)) <==> head < rules.len() && body < rules.len()
            && depends(rules[head as int], rules[body as int], label)
}

/// Whether rules may be applied by ascending levels: no rule is below one that it
/// depends on, and every rule is above those all of whose results it needs.
pub open spec fn respects(rules: Seq<RuleView>, levels: Seq<nat>) -> bool {
    &&& levels.len() == rules.len()
    &&& forall|head: int, body: int|
        #![trigger rules[head], rules[body]]
        0 <= head < rules.len() && 0 <= body < rules.len() ==> {
            &&& needs(rules[head], rules[body]) ==> levels[head] <= levels[body]
            &&& needs_all(rules[head], rules[body]) ==> levels[head] < levels[body]
        }
}

/// Whether `levels` is the lowest way to respect the rules.
pub open spec fn is_least_for(rules: Seq<RuleView>, levels: Seq<nat>) -> bool {
    &&& respects(rules, levels)
    &&& forall|other: Seq<nat>| #[trigger] respects(rules, other) ==> below(levels, other)
}

/// The strata of rules, from the lowest to the highest, if there are any.
pub open spec fn rule_strata(rules: Seq<RuleView>) -> Option<Seq<Seq<usize>>> {
    if exists|levels: Seq<nat>| is_least_for(rules, levels) {
        Some(strata_of(choose|levels: Seq<nat>| is_least_for(rules, levels)))
    } else {
        None
    }
}

proof fn lemma_respects(rules: Seq<RuleView>, graph: GraphView, levels: Seq<nat>)
    requires
        rules.len() <= usize::MAX,
        is_dependency_graph(rules, graph),
    ensures
        respects(rules, levels) <==> is_stratification(graph, levels),
{
    if respects(rules, levels) {
        assert forall|i: int| 0 <= i < graph.edges.len() implies levels[(
        #[trigger] graph.edges[i]).0 as int] + climb(graph.edges[i].2)
            <= levels[graph.edges[i].1 as int] by {
            let (head, body, label) = graph.edges[i];
            assert(graph.edges.contains((head, body, label)));
            assert(rules[head as int] == rules[head as int]);
            assert(rules[body as int] == rules[body as int]);
        }
    }
    if is_stratification(graph, levels) {
        assert forall|head: int, body: int|
            #![trigger rules[head], rules[body]]
            0 <= head < rules.len() && 0 <= body < rules.len() implies {
            &&& needs(rules[head], rules[body]) ==> levels[head] <= levels[body]
            &&& needs_all(rules[head], rules[body]) ==> levels[head] < levels[body]
        } by {
            let h = head as usize;
            let b = body as usize;
            if needs(rules[head], rules[body]) {
                assert(graph.edges.contains((h, b, EdgeLabel::Positive)));
                let i = choose|i: int|
                    0 <= i < graph.edges.len() && graph.edges[i] == (h, b, EdgeLabel::Positive);
                assert(graph.edges[i].0 == h);
            }
            if needs_all(rules[head], rules[body]) {
                assert(graph.edges.contains((h, b, EdgeLabel::Negative)));
                let i = choose|i: int|
                    0 <= i < graph.edges.len() && graph.edges[i] == (h, b, EdgeLabel::Negative);
                assert(graph.edges[i].0 == h);
            }
        }
    }
}

proof fn lemma_least_for(rules: Seq<RuleView>, graph: GraphView, levels: Seq<nat>)
    requires
        rules.len() <= usize::MAX,
        is_dependency_graph(rules, graph),
    ensures
        is_least_for(rules, levels) <==> is_least_stratification(graph, levels),
{
    lemma_respects(rules, graph, levels);
    if is_least_for(rules, levels) {
        assert forall|other: Seq<nat>| #[trigger] is_stratification(graph, other) implies below(
            levels,
            other,
        ) by {
            lemma_respects(rules, graph, other);
        }
    }
    if is_least_stratification(graph, levels) {
        assert forall|other: Seq<nat>| #[trigger] respects(rules, other) implies below(
            levels,
            other,
        ) by {
            lemma_respects(rules, graph, other);
        }
    }
}

/// The strata of rules are those of their dependency graph.
proof fn lemma_rule_strata(rules: Seq<RuleView>, graph: GraphView)
    requires
        rules.len() <= usize::MAX,
        is_dependency_graph(rules, graph),
    ensures
        rule_strata(rules) == stratified(graph),
{
    if stratifiable(graph) {
        let some = choose|levels: Seq<nat>| is_stratification(graph, levels);
        lemma_respects(rules, graph, some);
        lemma_least_exists(graph);
        let least = choose|levels: Seq<nat>| is_least_stratification(graph, levels);
        lemma_least_for(rules, graph, least);
        let chosen = choose|levels: Seq<nat>| is_least_for(rules, levels);
        assert(below(least, chosen) && below(chosen, least)) by {
            assert(is_least_for(rules, chosen));
            assert(is_least_for(rules, least));
            assert(respects(rules, chosen) && respects(rules, least));
        }
        assert forall|i: int| 0 <= i < least.len() implies least[i] == chosen[i] by {
            assert(least[i] <= chosen[i]);
            assert(chosen[i] <= least[i]);
        }
        assert(least =~= chosen);
    } else {
        assert forall|levels: Seq<nat>| !respects(rules, levels) by {
            lemma_respects(rules, graph, levels);
        }
    }
}

/// The rules of a stratum.
pub open spec fn stratum_rules(rules: Seq<RuleView>, stratum: Seq<usize>) -> Seq<RuleView> {
    Seq::new(stratum.len(), |i: int| rules[stratum[i] as int])
}

/// The states in which the strategies for the strata start.
pub open spec fn start_strata<S: RuleSelectionStrategy>(
    rules: Seq<RuleView>,
    strata: Seq<Seq<usize>>,
) -> Result<Seq<S::V>, SelectionStrategyError>
    decreases strata.len(),
{
    if strata.len() == 0 {
        Ok(Seq::empty())
    } else {
        match start_strata::<S>(rules, strata.drop_last()) {
            Ok(front) => match S::start(stratum_rules(rules, strata.last())) {
                Ok(last) => Ok(front.push(last)),
                Err(error) => Err(error),
            },
            Err(error) => Err(error),
        }
    }
}

/// The state of a [StrategyStratifiedNegation]: the strata, the states of their
/// strategies, and the stratum that is being worked on.
pub struct StratifiedView<S> {
    pub strata: Seq<Seq<usize>>,
    pub substates: Seq<S>,
    pub current: nat,
}

/// The next rule and the next state: the current stratum selects, and where it
/// has nothing left to do, the next one starts.
pub open spec fn advance_strata<S: RuleSelectionStrategy>(
    state: StratifiedView<S::V>,
    new_derivations: Option<bool>,
) -> (Option<usize>, StratifiedView<S::V>)
    decreases state.strata.len() - state.current,
{
    if state.current >= state.strata.len() {
        (None, state)
    } else {
        let current = state.current as int;
        let (selected, substate) = S::advance(state.substates[current], new_derivations);
        let substates = state.substates.update(current, substate);
        match selected {
            Some(rule) => (
                Some(state.strata[current][rule as int]),
                StratifiedView { strata: state.strata, substates, current: state.current },
            ),
            None => advance_strata::<S>(
                StratifiedView { strata: state.strata, substates, current: state.current + 1 },
                None,
            ),
        }
    }
}

/// Whether a state has a strategy for each stratum, and only rules below a count
/// in the strata.
pub open spec fn strata_serve<S: RuleSelectionStrategy>(
    state: StratifiedView<S::V>,
    rule_count: nat,
) -> bool {
    &&& state.substates.len() == state.strata.len()
    &&& forall|k: int|
        0 <= k < state.strata.len() ==> S::serves(
            #[trigger] state.substates[k],
            state.strata[k].len(),
        )
    &&& forall|k: int, i: int|
        0 <= k < state.strata.len() && 0 <= i < state.strata[k].len()
            ==> #[trigger] state.strata[k][i] < rule_count
}

proof fn lemma_advance_strata<S: RuleSelectionStrategy>(
    state: StratifiedView<S::V>,
    rule_count: nat,
    new_derivations: Option<bool>,
)
    requires
        strata_serve::<S>(state, rule_count),
    ensures
        strata_serve::<S>(advance_strata::<S>(state, new_derivations).1, rule_count),
        advance_strata::<S>(state, new_derivations).0 matches Some(rule) ==> rule < rule_count,
    decreases state.strata.len() - state.current,
{
    if state.current < state.strata.len() {
        let current = state.current as int;
        S::lemma_advance(state.substates[current], state.strata[current].len(), new_derivations);
        let (selected, substate) = S::advance(state.substates[current], new_derivations);
        let substates = state.substates.update(current, substate);
        if selected is None {
            lemma_advance_strata::<S>(
                StratifiedView { strata: state.strata, substates, current: state.current + 1 },
                rule_count,
                None,
            );
        }
    }
}

proof fn lemma_start_strata<S: RuleSelectionStrategy>(
    rules: Seq<RuleView>,
    strata: Seq<Seq<usize>>,
)
    ensures
        start_strata::<S>(rules, strata) matches Ok(substates) ==> {
            &&& substates.len() == strata.len()
            &&& forall|k: int|
                0 <= k < strata.len() ==> S::serves(#[trigger] substates[k], strata[k].len())
        },
    decreases strata.len(),
{
    if strata.len() > 0 {
        lemma_start_strata::<S>(rules, strata.drop_last());
        S::lemma_start(stratum_rules(rules, strata.last()));
    }
}

/// A strategy where rules are divided into strata, which are executed in
/// succession. Entering a new stratum implies that the table for every negated
/// atom will not get any new elements.
#[derive(Debug)]
pub struct StrategyStratifiedNegation<SubStrategy: RuleSelectionStrategy> {
    ordered_strata: Vec<Vec<usize>>,
    substrategies: Vec<SubStrategy>,
    current_stratum: usize,
}

spec fn substates_view<S: View>(substrategies: Seq<S>) -> Seq<S::V> {
    Seq::new(substrategies.len(), |i: int| substrategies[i]@)
}

impl<SubStrategy: RuleSelectionStrategy> View for StrategyStratifiedNegation<SubStrategy> {
    type V = StratifiedView<SubStrategy::V>;

    closed spec fn view(&self) -> StratifiedView<SubStrategy::V> {
        StratifiedView {
            strata: strata_view(self.ordered_strata@),
            substates: substates_view(self.substrategies@),
            current: self.current_stratum as nat,
        }
    }
}

/// The dependencies of one rule on another.
spec fn edges_between(rules: Seq<RuleView>, head: nat, body: nat) -> Seq<
    (usize, usize, EdgeLabel),
> {
    let positive = if needs(rules[head as int], rules[body as int]) {
        seq![(head as usize, body as usize, EdgeLabel::Positive)]
    } else {
        Seq::empty()
    };
    if needs_all(rules[head as int], rules[body as int]) {
        positive.push((head as usize, body as usize, EdgeLabel::Negative))
    } else {
        positive
    }
}

/// The dependencies of the first `count` rules on the rule `head`.
spec fn edges_to(rules: Seq<RuleView>, head: nat, count: nat) -> Seq<(usize, usize, EdgeLabel)>
    decreases count,
{
    if count == 0 {
        Seq::empty()
    } else {
        edges_to(rules, head, (count - 1) as nat) + edges_between(
            rules,
            head,
            (count - 1) as nat,
        )
    }
}

/// The dependencies on the first `count` rules.
spec fn edges_from(rules: Seq<RuleView>, count: nat) -> Seq<(usize, usize, EdgeLabel)>
    decreases count,
{
    if count == 0 {
        Seq::empty()
    } else {
        edges_from(rules, (count - 1) as nat) + edges_to(rules, (count - 1) as nat, rules.len())
    }
}

spec fn dependency_graph(rules: Seq<RuleView>) -> GraphView {
    GraphView { nodes: rules.len(), edges: edges_from(rules, rules.len()) }
}

/// Whether `edges` are the dependencies from a set of pairs of rules, each once.
spec fn lists_exactly(
    edges: Seq<(usize, usize, EdgeLabel)>,
    rules: Seq<RuleView>,
    among: spec_fn(usize, usize) -> bool,
) -> bool {
    &&& edges.no_duplicates()
    &&& forall|head: usize, body: usize, label: EdgeLabel| #[trigger]
        edges.contains((head, body, label)) <==> among(head, body) && depends(
            rules[head as int],
            rules[body as int],
            label,
        )
}

proof fn lemma_lists_sum(
    first: Seq<(usize, usize, EdgeLabel)>,
    second: Seq<(usize, usize, EdgeLabel)>,
    rules: Seq<RuleView>,
    a: spec_fn(usize, usize) -> bool,
    b: spec_fn(usize, usize) -> bool,
    both: spec_fn(usize, usize) -> bool,
)
    requires
        lists_exactly(first, rules, a),
        lists_exactly(second, rules, b),
        forall|head: usize, body: usize| !(#[trigger] a(head, body) && b(head, body)),
        forall|head: usize, body: usize| #[trigger]
            both(head, body) == (a(head, body) || b(head, body)),
    ensures
        lists_exactly(first + second, rules, both),
{
    let sum = first + second;
    assert forall|i: int, j: int| 0 <= i < sum.len() && 0 <= j < sum.len() && i != j implies sum[i]
        != sum[j] by {
        if i < first.len() && j >= first.len() {
            let (head, body, label) = sum[i];
            assert(first.contains((head, body, label)));
            assert(a(head, body));
            if sum[i] == sum[j] {
                assert(second[j - first.len()] == (head, body, label));
                assert(second.contains((head, body, label)));
                assert(b(head, body));
            }
        }
        if j < first.len() && i >= first.len() {
            let (head, body, label) = sum[j];
            assert(first.contains((head, body, label)));
            assert(a(head, body));
            if sum[i] == sum[j] {
                assert(second[i - first.len()] == (head, body, label));
                assert(second.contains((head, body, label)));
                assert(b(head, body));
            }
        }
    }
    assert forall|head: usize, body: usize, label: EdgeLabel| #[trigger]
        sum.contains((head, body, label)) <==> both(head, body) && depends(
            rules[head as int],
            rules[body as int],
            label,
        ) by {
        let edge = (head, body, label);
        if sum.contains(edge) {
            let i = choose|i: int| 0 <= i < sum.len() && sum[i] == edge;
            if i < first.len() {
                assert(first[i] == edge);
                assert(first.contains(edge));
            } else {
                assert(second[i - first.len()] == edge);
                assert(second.contains(edge));
            }
        }
        if both(head, body) && depends(rules[head as int], rules[body as int], label) {
            if a(head, body) {
                assert(first.contains(edge));
                let i = choose|i: int| 0 <= i < first.len() && first[i] == edge;
                assert(sum[i] == edge);
            } else {
                assert(second.contains(edge));
                let i = choose|i: int| 0 <= i < second.len() && second[i] == edge;
                assert(sum[i + first.len()] == edge);
            }
        }
    }
}

proof fn lemma_edges_between(rules: Seq<RuleView>, head: nat, body: nat)
    requires
        head <= usize::MAX,
        body <= usize::MAX,
    ensures
        lists_exactly(
            edges_between(rules, head, body),
            rules,
            |h: usize, b: usize| h == head && b == body,
        ),
{
    let edges = edges_between(rules, head, body);
    let positive = (head as usize, body as usize, EdgeLabel::Positive);
    let negative = (head as usize, body as usize, EdgeLabel::Negative);
    if needs(rules[head as int], rules[body as int]) {
        assert(edges[0] == positive);
    }
    if needs_all(rules[head as int], rules[body as int]) {
        assert(edges[edges.len() - 1] == negative);
    }
}

proof fn lemma_edges_to(rules: Seq<RuleView>, head: nat, count: nat)
    requires
        head <= usize::MAX,
        count <= usize::MAX,
    ensures
        lists_exactly(
            edges_to(rules, head, count),
            rules,
            |h: usize, b: usize| h == head && b < count,
        ),
    decreases count,
{
    if count > 0 {
        lemma_edges_to(rules, head, (count - 1) as nat);
        lemma_edges_between(rules, head, (count - 1) as nat);
        lemma_lists_sum(
            edges_to(rules, head, (count - 1) as nat),
            edges_between(rules, head, (count - 1) as nat),
            rules,
            |h: usize, b: usize| h == head && b < count - 1,
            |h: usize, b: usize| h == head && b == count - 1,
            |h: usize, b: usize| h == head && b < count,
        );
    }
}

proof fn lemma_edges_from(rules: Seq<RuleView>, count: nat)
    requires
        count <= rules.len() <= usize::MAX,
    ensures
        lists_exactly(
            edges_from(rules, count),
            rules,
            |h: usize, b: usize| h < count && b < rules.len(),
        ),
    decreases count,
{
    if count > 0 {
        lemma_edges_from(rules, (count - 1) as nat);
        lemma_edges_to(rules, (count - 1) as nat, rules.len());
        lemma_lists_sum(
            edges_from(rules, (count - 1) as nat),
            edges_to(rules, (count - 1) as nat, rules.len()),
            rules,
            |h: usize, b: usize| h < count - 1 && b < rules.len(),
            |h: usize, b: usize| h == count - 1 && b < rules.len(),
            |h: usize, b: usize| h < count && b < rules.len(),
        );
    }
}

proof fn lemma_dependency_graph(rules: Seq<RuleView>)
    requires
        rules.len() <= usize::MAX,
    ensures
        is_dependency_graph(rules, dependency_graph(rules)),
{
    lemma_edges_from(rules, rules.len());
    let graph = dependency_graph(rules);
    assert forall|i: int| 0 <= i < graph.edges.len() implies (#[trigger] graph.edges[i]).0
        < graph.nodes && graph.edges[i].1 < graph.nodes by {
        assert(graph.edges.contains(graph.edges[i]));
        let (head, body, label) = graph.edges[i];
        assert(graph.edges.contains((head, body, label)));
    }
}

impl<SubStrategy: RuleSelectionStrategy> StrategyStratifiedNegation<SubStrategy> {
    /// Builds the graph of the dependencies between rules.
    ///
    /// An aggregate in a head means that the head predicates need to be in a
    /// higher stratum than the body predicates, as if all of the body were
    /// negated.
    pub fn build_graph(rules: &Vec<&NormalizedRule>) -> (graph: NegationGraph)
        ensures
            graph.wf(),
            is_dependency_graph(rules_view(rules@), graph@),
    {
        let ghost views = rules_view(rules@);
        let rule_count: usize = rules.len();
        let mut graph = NegationGraph::with_nodes(rule_count);
        let mut head_index: usize = 0;
        while head_index < rule_count
            invariant
                rule_count == rules@.len(),
                views == rules_view(rules@),
                head_index <= rule_count,
                graph.wf(),
                graph@.nodes == rule_count,
                graph@.edges == edges_from(views, head_index as nat),
            decreases rule_count - head_index,
        {
            let ghost before = graph@.edges;
            let mut body_index: usize = 0;
            assert(graph@.edges =~= before + edges_to(views, head_index as nat, 0));
            while body_index < rule_count
                invariant
                    rule_count == rules@.len(),
                    views == rules_view(rules@),
                    head_index < rule_count,
                    body_index <= rule_count,
                    graph.wf(),
                    graph@.nodes == rule_count,
                    graph@.edges == before + edges_to(views, head_index as nat, body_index as nat),
                decreases rule_count - body_index,
            {
                let ghost read = graph@.edges;
                let head = rules[head_index];
                let body = rules[body_index];
                assert(views[head_index as int] == head@ && views[body_index as int] == body@);
                let positive = have_common_predicate(
                    head.predicates_head(),
                    body.predicates_positive(),
                );
                let negative = have_common_predicate(
                    head.predicates_head(),
                    body.predicates_negative(),
                );
                if positive && !body.contains_aggregates() {
                    graph.add_edge(head_index, body_index, EdgeLabel::Positive);
                }
                if negative || (positive && body.contains_aggregates()) {
                    graph.add_edge(head_index, body_index, EdgeLabel::Negative);
                }
                assert(graph@.edges =~= read + edges_between(
                    views,
                    head_index as nat,
                    body_index as nat,
                ));
                body_index = body_index + 1;
                assert(graph@.edges =~= before + edges_to(
                    views,
                    head_index as nat,
                    body_index as nat,
                ));
            }
            head_index = head_index + 1;
        }
        proof {
            lemma_dependency_graph(views);
            assert(graph@ == dependency_graph(views));
        }
        graph
    }

    /// The strata, from the lowest to the highest.
    pub fn ordered_strata(&self) -> (strata: &Vec<Vec<usize>>)
        ensures
            strata_view(strata@) == self@.strata,
    {
        &self.ordered_strata
    }
}

impl<SubStrategy: RuleSelectionStrategy> RuleSelectionStrategy for StrategyStratifiedNegation<
    SubStrategy,
> {
    open spec fn start(rules: Seq<RuleView>) -> Result<
        StratifiedView<SubStrategy::V>,
        SelectionStrategyError,
    > {
        match rule_strata(rules) {
            Some(strata) => match start_strata::<SubStrategy>(rules, strata) {
                Ok(substates) => Ok(StratifiedView { strata, substates, current: 0 }),
                Err(error) => Err(error),
            },
            None => Err(SelectionStrategyError::NonStratifiedProgram),
        }
    }

    open spec fn advance(
        state: StratifiedView<SubStrategy::V>,
        new_derivations: Option<bool>,
    ) -> (Option<usize>, StratifiedView<SubStrategy::V>) {
        advance_strata::<SubStrategy>(state, new_derivations)
    }

    open spec fn serves(state: StratifiedView<SubStrategy::V>, rule_count: nat) -> bool {
        strata_serve::<SubStrategy>(state, rule_count)
    }

    proof fn lemma_start(rules: Seq<RuleView>) {
        if let Some(strata) = rule_strata(rules) {
            lemma_start_strata::<SubStrategy>(rules, strata);
            lemma_strata_in_range(rules, strata);
        }
    }

    proof fn lemma_advance(
        state: StratifiedView<SubStrategy::V>,
        rule_count: nat,
        new_derivations: Option<bool>,
    ) {
        lemma_advance_strata::<SubStrategy>(state, rule_count, new_derivations);
    }

    /// Creates a strategy for the given rules, which fails where they cannot be
    /// divided into strata.
    fn new(rules: Vec<&NormalizedRule>) -> (strategy: Result<Self, SelectionStrategyError>) {
        let ghost views = rules_view(rules@);
        let graph = Self::build_graph(&rules);
        assert(views.len() == rules.len());
        proof {
            lemma_rule_strata(views, graph@);
        }
        let strata = match graph.stratify() {
            Some(strata) => strata,
            None => return Err(SelectionStrategyError::NonStratifiedProgram),
        };
        let ghost expected = strata_view(strata@);
        proof {
            lemma_strata_in_range(views, expected);
        }
        let mut substrategies: Vec<SubStrategy> = Vec::new();
        let mut index: usize = 0;
        assert(substates_view(substrategies@) =~= Seq::<SubStrategy::V>::empty());
        while index < strata.len()
            invariant
                index <= strata@.len(),
                views == rules_view(rules@),
                expected == strata_view(strata@),
                forall|k: int, i: int|
                    0 <= k < expected.len() && 0 <= i < expected[k].len()
                        ==> #[trigger] expected[k][i] < views.len(),
                start_strata::<SubStrategy>(views, expected.take(index as int)) == Ok::<
                    _,
                    SelectionStrategyError,
                >(substates_view(substrategies@)),
                rule_strata(views) == Some(expected),
            decreases strata@.len() - index,
        {
            let stratum = &strata[index];
            assert(expected[index as int] == stratum@);
            let mut sub_rules: Vec<&NormalizedRule> = Vec::new();
            let mut place: usize = 0;
            while place < stratum.len()
                invariant
                    place <= stratum@.len(),
                    views == rules_view(rules@),
                    forall|i: int| 0 <= i < stratum@.len() ==> #[trigger] stratum@[i] < views.len(),
                    rules_view(sub_rules@) == stratum_rules(views, stratum@).take(place as int),
                decreases stratum@.len() - place,
            {
                let ghost before = sub_rules@;
                sub_rules.push(rules[stratum[place]]);
                assert(rules_view(sub_rules@) =~= rules_view(before).push(
                    views[stratum@[place as int] as int],
                ));
                place = place + 1;
                assert(rules_view(sub_rules@) =~= stratum_rules(views, stratum@).take(
                    place as int,
                ));
            }
            assert(stratum_rules(views, stratum@).take(place as int) =~= stratum_rules(
                views,
                stratum@,
            ));
            let ghost now = expected.take(index + 1);
            assert(now.drop_last() =~= expected.take(index as int));
            assert(now.last() == stratum@);
            let ghost done = substrategies@;
            match SubStrategy::new(sub_rules) {
                Ok(substrategy) => {
                    substrategies.push(substrategy);
                    assert(substates_view(substrategies@) =~= substates_view(done).push(
                        substrategy@,
                    ));
                },
                Err(error) => {
                    proof {
                        lemma_start_error::<SubStrategy>(views, expected, index + 1);
                    }
                    return Err(error);
                },
            }
            index = index + 1;
        }
        assert(expected.take(index as int) =~= expected);
        Ok(
            StrategyStratifiedNegation {
                ordered_strata: strata,
                substrategies,
                current_stratum: 0,
            },
        )
    }

    fn next_rule(&mut self, new_derivations: Option<bool>) -> (rule: Option<usize>) {
        let ghost rule_count = choose|rule_count: nat| Self::serves(self@, rule_count);
        let mut derivations = new_derivations;
        while self.current_stratum < self.ordered_strata.len()
            invariant
                Self::serves(self@, rule_count),
                advance_strata::<SubStrategy>(self@, derivations) == advance_strata::<SubStrategy>(
                    old(self)@,
                    new_derivations,
                ),
            decreases self.ordered_strata@.len() - self.current_stratum,
        {
            let ghost before = self@;
            let current: usize = self.current_stratum;
            assert(before.strata[current as int] == self.ordered_strata@[current as int]@);
            assert(before.substates[current as int] == self.substrategies@[current as int]@);
            proof {
                SubStrategy::lemma_advance(
                    before.substates[current as int],
                    before.strata[current as int].len(),
                    derivations,
                );
                lemma_advance_strata::<SubStrategy>(before, rule_count, derivations);
            }
            let selected = self.substrategies[current].next_rule(derivations);
            assert(self@.substates =~= before.substates.update(
                current as int,
                SubStrategy::advance(before.substates[current as int], derivations).1,
            ));
            match selected {
                Some(rule) => {
                    return Some(self.ordered_strata[current][rule]);
                },
                None => {
                    self.current_stratum = current + 1;
                    derivations = None;
                },
            }
        }
        None
    }
}

proof fn lemma_start_error<S: RuleSelectionStrategy>(
    rules: Seq<RuleView>,
    strata: Seq<Seq<usize>>,
    count: int,
)
    requires
        0 <= count <= strata.len(),
        start_strata::<S>(rules, strata.take(count)) is Err,
    ensures
        start_strata::<S>(rules, strata) == start_strata::<S>(rules, strata.take(count)),
    decreases strata.len(),
{
    if count < strata.len() {
        assert(strata.drop_last().take(count) =~= strata.take(count));
        lemma_start_error::<S>(rules, strata.drop_last(), count);
    } else {
        assert(strata.take(count) =~= strata);
    }
}

/// The strata of rules hold indices of rules.
proof fn lemma_strata_in_range(rules: Seq<RuleView>, strata: Seq<Seq<usize>>)
    requires
        rule_strata(rules) == Some(strata),
    ensures
        forall|k: int, i: int|
            0 <= k < strata.len() && 0 <= i < strata[k].len() ==> #[trigger] strata[k][i]
                < rules.len(),
{
    if rules.len() <= usize::MAX {
        let levels = choose|levels: Seq<nat>| is_least_for(rules, levels);
        assert forall|k: int, i: int|
            0 <= k < strata.len() && 0 <= i < strata[k].len() implies #[trigger] strata[k][i]
            < rules.len() by {
            lemma_level_nodes(levels, k as nat, levels.len());
            assert(strata[k].contains(strata[k][i]));
        }
    }
}

/// Rules have strata exactly where there is a way to respect their dependencies.
pub proof fn lemma_strata_where_respectable(rules: Seq<RuleView>)
    requires
        rules.len() <= usize::MAX,
    ensures
        rule_strata(rules) is Some <==> exists|levels: Seq<nat>| respects(rules, levels),
{
    lemma_dependency_graph(rules);
    let graph = dependency_graph(rules);
    lemma_rule_strata(rules, graph);
    if stratifiable(graph) {
        let levels = choose|levels: Seq<nat>| is_stratification(graph, levels);
        lemma_respects(rules, graph, levels);
    }
    if exists|levels: Seq<nat>| respects(rules, levels) {
        let levels = choose|levels: Seq<nat>| respects(rules, levels);
        lemma_respects(rules, graph, levels);
    }
}

/// Every rule is in exactly one stratum, no stratum is empty, and in each the
/// rules keep their order.
pub proof fn lemma_rules_partitioned(rules: Seq<RuleView>, strata: Seq<Seq<usize>>)
    requires
        rules.len() <= usize::MAX,
        rule_strata(rules) == Some(strata),
    ensures
        forall|rule: usize| rule < rules.len() ==> #[trigger] has_stratum(strata, rule),
        forall|j: int, k: int, rule: usize|
            0 <= j < strata.len() && 0 <= k < strata.len() && #[trigger] strata[j].contains(rule)
                && #[trigger] strata[k].contains(rule) ==> j == k,
        forall|k: int| 0 <= k < strata.len() ==> (#[trigger] strata[k]).len() > 0,
        forall|k: int, rule: usize|
            0 <= k < strata.len() && #[trigger] strata[k].contains(rule) ==> rule < rules.len(),
        forall|k: int, i: int, j: int|
            0 <= k < strata.len() && 0 <= i < j < strata[k].len() ==> strata[k][i] < strata[k][j],
{
    lemma_dependency_graph(rules);
    lemma_rule_strata(rules, dependency_graph(rules));
    lemma_strata_partition(dependency_graph(rules), strata);
}

/// What a rule uses is derived in its own stratum or below, and what it negates
/// or aggregates over only below: once its stratum is entered, the table for
/// every negated atom gets no new elements.
pub proof fn lemma_negated_tables_are_complete(
    rules: Seq<RuleView>,
    strata: Seq<Seq<usize>>,
    head: usize,
    body: usize,
    head_stratum: int,
    body_stratum: int,
)
    requires
        rules.len() <= usize::MAX,
        rule_strata(rules) == Some(strata),
        0 <= head_stratum < strata.len(),
        0 <= body_stratum < strata.len(),
        strata[head_stratum].contains(head),
        strata[body_stratum].contains(body),
    ensures
        needs(rules[head as int], rules[body as int]) ==> head_stratum <= body_stratum,
        needs_all(rules[head as int], rules[body as int]) ==> head_stratum < body_stratum,
{
    let graph = dependency_graph(rules);
    lemma_dependency_graph(rules);
    lemma_rule_strata(rules, graph);
    let levels = lemma_strata_levels(graph, strata);
    lemma_respects(rules, graph, levels);
    assert(rules[head as int] == rules[head as int]);
    assert(rules[body as int] == rules[body as int]);
}

/// The strata are worked on from the lowest to the highest: selecting a rule
/// never goes back to a lower stratum, and the rule is one of the stratum that is
/// then being worked on.
pub proof fn lemma_strata_in_succession<S: RuleSelectionStrategy>(
    state: StratifiedView<S::V>,
    rule_count: nat,
    new_derivations: Option<bool>,
)
    requires
        strata_serve::<S>(state, rule_count),
    ensures
        ({
            let (selected, next) = advance_strata::<S>(state, new_derivations);
            &&& next.strata == state.strata
            &&& state.current <= next.current
            &&& selected matches Some(rule) ==> next.current < next.strata.len()
                && next.strata[next.current as int].contains(rule)
            &&& selected is None ==> next.current >= next.strata.len()
        }),
    decreases state.strata.len() - state.current,
{
    if state.current < state.strata.len() {
        let current = state.current as int;
        let (selected, substate) = S::advance(state.substates[current], new_derivations);
        let substates = state.substates.update(current, substate);
        S::lemma_advance(state.substates[current], state.strata[current].len(), new_derivations);
        if selected is None {
            let next = StratifiedView {
                strata: state.strata,
                substates,
                current: state.current + 1,
            };
            lemma_strata_in_succession::<S>(next, rule_count, None);
        } else {
            assert(state.strata[current].contains(state.strata[current][selected->0 as int]));
        }
    }
}

/// Once no rule is left, none is selected again.
pub proof fn lemma_done_for_good<S: RuleSelectionStrategy>(
    state: StratifiedView<S::V>,
    rule_count: nat,
    new_derivations: Option<bool>,
    later_derivations: Option<bool>,
)
    requires
        strata_serve::<S>(state, rule_count),
        advance_strata::<S>(state, new_derivations).0 is None,
    ensures
        ({
            let done = advance_strata::<S>(state, new_derivations).1;
            advance_strata::<S>(done, later_derivations) == (None::<usize>, done)
        }),
{
    lemma_strata_in_succession::<S>(state, rule_count, new_derivations);
}

/// Every stratum has a strategy of its own from the start, for its own rules, and
/// the lowest stratum is worked on first.
pub proof fn lemma_strata_start_fresh<S: RuleSelectionStrategy>(
    rules: Seq<RuleView>,
    state: StratifiedView<S::V>,
    k: int,
)
    requires
        StrategyStratifiedNegation::<S>::start(rules) == Ok::<_, SelectionStrategyError>(state),
        0 <= k < state.strata.len(),
    ensures
        state.current == 0,
        rule_strata(rules) == Some(state.strata),
        state.substates.len() == state.strata.len(),
        S::start(Seq::new(state.strata[k].len(), |i: int| rules[state.strata[k][i] as int]))
            == Ok::<_, SelectionStrategyError>(state.substates[k]),
{
    lemma_started::<S>(rules, state.strata, k);
    assert(Seq::new(state.strata[k].len(), |i: int| rules[state.strata[k][i] as int])
        =~= stratum_rules(rules, state.strata[k]));
}

proof fn lemma_started<S: RuleSelectionStrategy>(
    rules: Seq<RuleView>,
    strata: Seq<Seq<usize>>,
    k: int,
)
    requires
        0 <= k < strata.len(),
        start_strata::<S>(rules, strata) is Ok,
    ensures
        start_strata::<S>(rules, strata) matches Ok(substates) && substates.len() == strata.len()
            && S::start(stratum_rules(rules, strata[k])) == Ok::<_, SelectionStrategyError>(
            substates[k],
        ),
    decreases strata.len(),
{
    lemma_start_strata::<S>(rules, strata);
    if k < strata.len() - 1 {
        lemma_started::<S>(rules, strata.drop_last(), k);
        lemma_start_strata::<S>(rules, strata.drop_last());
        assert(strata.drop_last()[k] == strata[k]);
    } else {
        lemma_start_strata::<S>(rules, strata.drop_last());
    }
}

/// Whether the last rule derived anything new is told to the strategy of the
/// current stratum, and what that one selects is selected, by its place in the
/// stratum. No other stratum changes.
pub proof fn lemma_current_stratum_selects<S: RuleSelectionStrategy>(
    state: StratifiedView<S::V>,
    new_derivations: Option<bool>,
    place: usize,
    substate: S::V,
)
    requires
        state.current < state.strata.len(),
        S::advance(state.substates[state.current as int], new_derivations) == (
            Some(place),
            substate,
        ),
    ensures
        StrategyStratifiedNegation::<S>::advance(state, new_derivations) == (
            Some(state.strata[state.current as int][place as int]),
            StratifiedView {
                strata: state.strata,
                substates: state.substates.update(state.current as int, substate),
                current: state.current,
            },
        ),
{
}

/// Where the strategy of the current stratum has nothing left to do, selection
/// goes on as if the next stratum were entered with no rule applied before.
pub proof fn lemma_finished_stratum_is_left<S: RuleSelectionStrategy>(
    state: StratifiedView<S::V>,
    new_derivations: Option<bool>,
    substate: S::V,
)
    requires
        state.current < state.strata.len(),
        S::advance(state.substates[state.current as int], new_derivations) == (
            None::<usize>,
            substate,
        ),
    ensures
        StrategyStratifiedNegation::<S>::advance(state, new_derivations)
            == StrategyStratifiedNegation::<S>::advance(
            StratifiedView {
                strata: state.strata,
                substates: state.substates.update(state.current as int, substate),
                current: state.current + 1,
            },
            None,
        ),
{
}

proof fn lemma_within_stratum(
    state: StratifiedView<RoundRobinView>,
    rules: Seq<RuleView>,
    news: Seq<bool>,
)
    requires
        state.current < state.strata.len(),
        state.substates.len() == state.strata.len(),
        rules.len() == state.strata[state.current as int].len(),
        rules.len() <= usize::MAX,
        StrategyRoundRobin::start(rules) == Ok::<_, SelectionStrategyError>(
            state.substates[state.current as int],
        ),
        forall|j: int| 0 <= j <= news.len() ==> !fruitless_round(#[trigger] news.take(j), rules.len()),
    ensures
        ({
            let k = state.current as int;
            let fresh = state.substates[k];
            &&& after_calls::<StrategyStratifiedNegation<StrategyRoundRobin>>(state, news) == (
                Some(state.strata[k][news.len() as int % rules.len() as int]),
                StratifiedView {
                    strata: state.strata,
                    substates: state.substates.update(
                        k,
                        after_calls::<StrategyRoundRobin>(fresh, news).1,
                    ),
                    current: state.current,
                },
            )
            &&& after_calls::<StrategyRoundRobin>(fresh, news).0 == Some(
                (news.len() as int % rules.len() as int) as usize,
            )
        }),
    decreases news.len(),
{
    let k = state.current as int;
    let fresh = state.substates[k];
    assert(news.take(news.len() as int) =~= news);
    lemma_rules_take_turns(rules, fresh, news);
    assert(rules.len() > 0) by {
        assert(!fruitless_round(news.take(0), rules.len()));
    }
    assert(0 <= news.len() as int % rules.len() as int) by (nonlinear_arith)
        requires
            rules.len() > 0,
    ;
    assert((news.len() as int % rules.len() as int) < rules.len()) by (nonlinear_arith)
        requires
            rules.len() > 0,
    ;
    if news.len() > 0 {
        let front = news.drop_last();
        assert forall|j: int| 0 <= j <= front.len() implies !fruitless_round(
            #[trigger] front.take(j),
            rules.len(),
        ) by {
            assert(front.take(j) =~= news.take(j));
        }
        lemma_within_stratum(state, rules, front);
        let before = after_calls::<StrategyStratifiedNegation<StrategyRoundRobin>>(state, front).1;
        assert(before.substates[k] == after_calls::<StrategyRoundRobin>(fresh, front).1);
        assert(before.substates.update(k, after_calls::<StrategyRoundRobin>(fresh, news).1)
            =~= state.substates.update(k, after_calls::<StrategyRoundRobin>(fresh, news).1));
    }
}

/// A stratum is gone through again and again, rule by rule, as long as no whole
/// round of it has derived nothing new: every rule of it takes its turn, none of
/// another stratum is selected, and the strata above have not been started.
pub proof fn lemma_stratum_until_saturated(
    state: StratifiedView<RoundRobinView>,
    rules: Seq<RuleView>,
    news: Seq<bool>,
)
    requires
        state.current < state.strata.len(),
        state.substates.len() == state.strata.len(),
        rules.len() == state.strata[state.current as int].len(),
        rules.len() <= usize::MAX,
        StrategyRoundRobin::start(rules) == Ok::<_, SelectionStrategyError>(
            state.substates[state.current as int],
        ),
        forall|j: int| 0 <= j <= news.len() ==> !fruitless_round(#[trigger] news.take(j), rules.len()),
    ensures
        ({
            let (selected, next) = after_calls::<StrategyStratifiedNegation<StrategyRoundRobin>>(
                state,
                news,
            );
            let stratum = state.strata[state.current as int];
            &&& selected == Some(stratum[news.len() as int % stratum.len() as int])
            &&& next.strata == state.strata
            &&& next.current == state.current
            &&& next.substates.len() == state.substates.len()
            &&& forall|j: int|
                0 <= j < state.substates.len() && j != state.current
                    ==> #[trigger] next.substates[j] == state.substates[j]
        }),
{
    lemma_within_stratum(state, rules, news);
}

/// A rule that derived something new is always followed by another rule of the same
/// stratum, whatever the rules before it derived.
pub proof fn lemma_news_keep_the_stratum(
    state: StratifiedView<RoundRobinView>,
    rules: Seq<RuleView>,
    news: Seq<bool>,
)
    requires
        state.current < state.strata.len(),
        state.substates.len() == state.strata.len(),
        0 < rules.len() == state.strata[state.current as int].len(),
        rules.len() <= usize::MAX,
        StrategyRoundRobin::start(rules) == Ok::<_, SelectionStrategyError>(
            state.substates[state.current as int],
        ),
        forall|j: int| 0 <= j <= news.len() ==> !fruitless_round(#[trigger] news.take(j), rules.len()),
    ensures
        ({
            let (selected, next) = after_calls::<StrategyStratifiedNegation<StrategyRoundRobin>>(
                state,
                news.push(true),
            );
            &&& selected matches Some(rule) && state.strata[state.current as int].contains(rule)
            &&& next.current == state.current
        }),
{
    let more = news.push(true);
    assert forall|j: int| 0 <= j <= more.len() implies !fruitless_round(
        #[trigger] more.take(j),
        rules.len(),
    ) by {
        if j <= news.len() {
            assert(more.take(j) =~= news.take(j));
        } else {
            assert(more.take(j)[j - 1]);
        }
    }
    lemma_within_stratum(state, rules, more);
    let stratum = state.strata[state.current as int];
    let place = more.len() as int % stratum.len() as int;
    assert(0 <= place < stratum.len()) by (nonlinear_arith)
        requires
            stratum.len() > 0,
            place == more.len() as int % stratum.len() as int,
    ;
    assert(stratum.contains(stratum[place]));
}

/// As soon as a whole round of a stratum has derived nothing new, it is left for
/// good: what follows is what follows on entering the next one.
pub proof fn lemma_saturated_stratum_is_left(
    state: StratifiedView<RoundRobinView>,
    rules: Seq<RuleView>,
    news: Seq<bool>,
    more: Seq<bool>,
) -> (left: StratifiedView<RoundRobinView>)
    requires
        state.current < state.strata.len(),
        state.substates.len() == state.strata.len(),
        0 < rules.len() == state.strata[state.current as int].len(),
        rules.len() <= usize::MAX,
        StrategyRoundRobin::start(rules) == Ok::<_, SelectionStrategyError>(
            state.substates[state.current as int],
        ),
        forall|j: int| 0 <= j < news.len() ==> !fruitless_round(#[trigger] news.take(j), rules.len()),
        fruitless_round(news, rules.len()),
    ensures
        after_calls::<StrategyStratifiedNegation<StrategyRoundRobin>>(state, news + more)
            == after_calls::<StrategyStratifiedNegation<StrategyRoundRobin>>(left, more),
        left.strata == state.strata,
        left.current == state.current + 1,
        left.substates.len() == state.substates.len(),
        forall|j: int|
            state.current < j < state.substates.len() ==> #[trigger] left.substates[j]
                == state.substates[j],
        left.current == left.strata.len() ==> after_calls::<
            StrategyStratifiedNegation<StrategyRoundRobin>,
        >(state, news + more).0 is None,
    decreases more.len(),
{
    let k = state.current as int;
    let fresh = state.substates[k];
    let left = StratifiedView {
        strata: state.strata,
        substates: state.substates.update(k, after_calls::<StrategyRoundRobin>(fresh, news).1),
        current: state.current + 1,
    };
    if more.len() > 0 {
        let earlier = lemma_saturated_stratum_is_left(state, rules, news, more.drop_last());
        assert((news + more).drop_last() =~= news + more.drop_last());
        if earlier.current == earlier.strata.len() {
            lemma_nothing_left(earlier, more);
        }
        earlier
    } else {
        let front = news.drop_last();
        assert forall|j: int| 0 <= j <= front.len() implies !fruitless_round(
            #[trigger] front.take(j),
            rules.len(),
        ) by {
            assert(front.take(j) =~= news.take(j));
        }
        lemma_within_stratum(state, rules, front);
        lemma_rules_take_turns(rules, fresh, news);
        let before = after_calls::<StrategyStratifiedNegation<StrategyRoundRobin>>(state, front).1;
        assert(before.substates[k] == after_calls::<StrategyRoundRobin>(fresh, front).1);
        assert(before.substates.update(k, after_calls::<StrategyRoundRobin>(fresh, news).1)
            =~= left.substates);
        assert(news + more =~= news);
        assert(more =~= Seq::<bool>::empty());
        if left.current == left.strata.len() {
            lemma_nothing_left(left, more);
        }
        left
    }
}

proof fn lemma_nothing_left(state: StratifiedView<RoundRobinView>, news: Seq<bool>)
    requires
        state.current >= state.strata.len(),
    ensures
        after_calls::<StrategyStratifiedNegation<StrategyRoundRobin>>(state, news) == (
            None::<usize>,
            state,
        ),
    decreases news.len(),
{
    if news.len() > 0 {
        lemma_nothing_left(state, news.drop_last());
    }
}

/// Whether rules may be applied by ascending levels, predicate by predicate: what
/// derives a predicate is not above what uses it, and is below what negates it or
/// aggregates over it.
pub open spec fn climbs(rules: Seq<RuleView>, levels: Seq<nat>) -> bool {
    &&& levels.len() == rules.len()
    &&& forall|head: int, body: int, i: int, j: int|
        0 <= head < rules.len() && 0 <= body < rules.len() && 0 <= i < rules[head].head.len() && 0
            <= j < rules[body].positive.len() && (#[trigger] rules[head].head[i]).0 == (
        #[trigger] rules[body].positive[j]).0 ==> {
            &&& levels[head] <= levels[body]
            &&& rules[body].aggregates ==> levels[head] < levels[body]
        }
    &&& forall|head: int, body: int, i: int, j: int|
        0 <= head < rules.len() && 0 <= body < rules.len() && 0 <= i < rules[head].head.len() && 0
            <= j < rules[body].negative.len() && (#[trigger] rules[head].head[i]).0 == (
        #[trigger] rules[body].negative[j]).0 ==> levels[head] < levels[body]
}

proof fn lemma_climbs(rules: Seq<RuleView>, levels: Seq<nat>)
    ensures
        climbs(rules, levels) <==> respects(rules, levels),
{
    if respects(rules, levels) {
        assert forall|head: int, body: int, i: int, j: int|
            0 <= head < rules.len() && 0 <= body < rules.len() && 0 <= i < rules[head].head.len()
                && 0 <= j < rules[body].positive.len() && (#[trigger] rules[head].head[i]).0 == (
            #[trigger] rules[body].positive[j]).0 implies {
            &&& levels[head] <= levels[body]
            &&& rules[body].aggregates ==> levels[head] < levels[body]
        } by {
            assert(shares(rules[head].head, rules[body].positive));
        }
        assert forall|head: int, body: int, i: int, j: int|
            0 <= head < rules.len() && 0 <= body < rules.len() && 0 <= i < rules[head].head.len()
                && 0 <= j < rules[body].negative.len() && (#[trigger] rules[head].head[i]).0 == (
            #[trigger] rules[body].negative[j]).0 implies levels[head] < levels[body] by {
            assert(shares(rules[head].head, rules[body].negative));
        }
    }
    if climbs(rules, levels) {
        assert forall|head: int, body: int|
            #![trigger rules[head], rules[body]]
            0 <= head < rules.len() && 0 <= body < rules.len() implies {
            &&& needs(rules[head], rules[body]) ==> levels[head] <= levels[body]
            &&& needs_all(rules[head], rules[body]) ==> levels[head] < levels[body]
        } by {
            if shares(rules[head].head, rules[body].positive) {
                let (i, j) = choose|i: int, j: int|
                    0 <= i < rules[head].head.len() && 0 <= j < rules[body].positive.len() && (
                    #[trigger] rules[head].head[i]).0 == (#[trigger] rules[body].positive[j]).0;
                assert(rules[head].head[i].0 == rules[body].positive[j].0);
            }
            if shares(rules[head].head, rules[body].negative) {
                let (i, j) = choose|i: int, j: int|
                    0 <= i < rules[head].head.len() && 0 <= j < rules[body].negative.len() && (
                    #[trigger] rules[head].head[i]).0 == (#[trigger] rules[body].negative[j]).0;
                assert(rules[head].head[i].0 == rules[body].negative[j].0);
            }
        }
    }
}

/// There are strata exactly where rules may be applied by ascending levels; the
/// strata are such levels, and no rule is in a higher stratum than it has to be.
pub proof fn lemma_strata_are_lowest(rules: Seq<RuleView>)
    requires
        rules.len() <= usize::MAX,
    ensures
        rule_strata(rules) is Some <==> exists|levels: Seq<nat>| climbs(rules, levels),
        rule_strata(rules) matches Some(strata) ==> exists|levels: Seq<nat>|
            {
                &&& #[trigger] climbs(rules, levels)
                &&& forall|k: int, rule: usize|
                    0 <= k < strata.len() ==> (#[trigger] strata[k].contains(rule) <==> rule
                        < rules.len() && levels[rule as int] == k)
                &&& forall|i: int|
                    0 <= i < levels.len() ==> #[trigger] levels[i] < strata.len()
                &&& forall|other: Seq<nat>, i: int|
                    #[trigger] climbs(rules, other) && 0 <= i < levels.len()
                        ==> #[trigger] levels[i] <= other[i]
            },
{
    let graph = dependency_graph(rules);
    lemma_strata_where_respectable(rules);
    lemma_dependency_graph(rules);
    lemma_rule_strata(rules, graph);
    if exists|levels: Seq<nat>| climbs(rules, levels) {
        let levels = choose|levels: Seq<nat>| climbs(rules, levels);
        lemma_climbs(rules, levels);
    }
    if exists|levels: Seq<nat>| respects(rules, levels) {
        let levels = choose|levels: Seq<nat>| respects(rules, levels);
        lemma_climbs(rules, levels);
    }
    if let Some(strata) = rule_strata(rules) {
        let levels = lemma_strata_levels(graph, strata);
        lemma_least_for(rules, graph, levels);
        lemma_climbs(rules, levels);
        lemma_level_count(levels);
        assert forall|other: Seq<nat>, i: int| #[trigger]
            climbs(rules, other) && 0 <= i < levels.len() implies #[trigger] levels[i]
            <= other[i] by {
            lemma_climbs(rules, other);
            assert(below(levels, other));
        }
    }
}

/// The edges of a dependency graph, predicate by predicate: a rule has a positive
/// edge to each rule that uses something it derives without aggregating, and a
/// negative one to each rule that negates it or aggregates over it.
pub proof fn lemma_dependency_edges(
    rules: Seq<RuleView>,
    graph: GraphView,
    head: usize,
    body: usize,
)
    requires
        is_dependency_graph(rules, graph),
        head < rules.len(),
        body < rules.len(),
    ensures
        graph.edges.contains((head, body, EdgeLabel::Positive)) <==> {
            &&& !rules[body as int].aggregates
            &&& exists|i: int, j: int|
                0 <= i < rules[head as int].head.len() && 0 <= j
                    < rules[body as int].positive.len() && (#[trigger] rules[head as int].head[i]).0
                    == (#[trigger] rules[body as int].positive[j]).0
        },
        graph.edges.contains((head, body, EdgeLabel::Negative)) <==> {
            ||| exists|i: int, j: int|
                0 <= i < rules[head as int].head.len() && 0 <= j
                    < rules[body as int].negative.len() && (#[trigger] rules[head as int].head[i]).0
                    == (#[trigger] rules[body as int].negative[j]).0
            ||| rules[body as int].aggregates && exists|i: int, j: int|
                0 <= i < rules[head as int].head.len() && 0 <= j
                    < rules[body as int].positive.len() && (#[trigger] rules[head as int].head[i]).0
                    == (#[trigger] rules[body as int].positive[j]).0
        },
        graph.edges.no_duplicates(),
{
}

proof fn lemma_strata_start<S: RuleSelectionStrategy>(
    rules: Seq<RuleView>,
    strata: Seq<Seq<usize>>,
)
    requires
        forall|part: Seq<RuleView>| #[trigger] S::start(part) is Ok,
    ensures
        start_strata::<S>(rules, strata) is Ok,
    decreases strata.len(),
{
    if strata.len() > 0 {
        lemma_strata_start::<S>(rules, strata.drop_last());
        assert(S::start(stratum_rules(rules, strata.last())) is Ok);
    }
}

/// Where the strategy for strata takes any rules, there is a strategy for a program
/// exactly where its rules may be applied by ascending levels, and otherwise the program
/// is reported as one without strata.
pub proof fn lemma_programs_with_strata_start<S: RuleSelectionStrategy>(rules: Seq<RuleView>)
    requires
        rules.len() <= usize::MAX,
        forall|part: Seq<RuleView>| #[trigger] S::start(part) is Ok,
    ensures
        StrategyStratifiedNegation::<S>::start(rules) is Ok <==> exists|levels: Seq<nat>|
            climbs(rules, levels),
        StrategyStratifiedNegation::<S>::start(rules) matches Err(error) ==> error
            == SelectionStrategyError::NonStratifiedProgram,
{
    lemma_strata_are_lowest(rules);
    if let Some(strata) = rule_strata(rules) {
        lemma_strata_start::<S>(rules, strata);
    }
}

/// Where a stratum has no strategy, neither has the program: it is refused for the first
/// such stratum.
pub proof fn lemma_refused_strata<S: RuleSelectionStrategy>(
    rules: Seq<RuleView>,
    strata: Seq<Seq<usize>>,
    k: int,
)
    requires
        rule_strata(rules) == Some(strata),
        0 <= k < strata.len(),
        forall|j: int|
            0 <= j < k ==> S::start(
                Seq::new(
                    (#[trigger] strata[j]).len(),
                    |i: int| rules[strata[j][i] as int],
                ),
            ) is Ok,
        S::start(Seq::new(strata[k].len(), |i: int| rules[strata[k][i] as int])) is Err,
    ensures
        StrategyStratifiedNegation::<S>::start(rules) is Err,
        StrategyStratifiedNegation::<S>::start(rules)->Err_0 == S::start(
            Seq::new(strata[k].len(), |i: int| rules[strata[k][i] as int]),
        )->Err_0,
{
    lemma_refused_from::<S>(rules, strata, k, strata.len());
    assert(strata.take(strata.len() as int) =~= strata);
}

proof fn lemma_refused_from<S: RuleSelectionStrategy>(
    rules: Seq<RuleView>,
    strata: Seq<Seq<usize>>,
    k: int,
    count: nat,
)
    requires
        0 <= k < strata.len(),
        count <= strata.len(),
        forall|j: int|
            0 <= j < k ==> S::start(
                Seq::new(
                    (#[trigger] strata[j]).len(),
                    |i: int| rules[strata[j][i] as int],
                ),
            ) is Ok,
        S::start(Seq::new(strata[k].len(), |i: int| rules[strata[k][i] as int])) is Err,
    ensures
        count <= k ==> start_strata::<S>(rules, strata.take(count as int)) is Ok,
        count > k ==> start_strata::<S>(rules, strata.take(count as int)) is Err && start_strata::<
            S,
        >(rules, strata.take(count as int))->Err_0 == S::start(
            Seq::new(strata[k].len(), |i: int| rules[strata[k][i] as int]),
        )->Err_0,
    decreases count,
{
    if count > 0 {
        let last = count - 1;
        let part = strata.take(count as int);
        lemma_refused_from::<S>(rules, strata, k, last as nat);
        assert(part.drop_last() =~= strata.take(last));
        assert(part.last() == strata[last]);
        assert(stratum_rules(rules, strata[last]) =~= Seq::new(
            strata[last].len(),
            |i: int| rules[strata[last][i] as int],
        ));
    }
}

} // verus!
