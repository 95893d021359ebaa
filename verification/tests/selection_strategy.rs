//! In which order rules are applied.

use std::collections::BTreeSet;

use nemo_store::labeled_graph::{EdgeLabel, NegationGraph};
use nemo_store::rules::{NormalizedRule, Tag};
use nemo_store::selection_strategy::{
    strategy_round_robin::StrategyRoundRobin,
    strategy_stratified_negation::StrategyStratifiedNegation, RuleSelectionStrategy,
    SelectionStrategyError,
};

type Strategy = StrategyStratifiedNegation<StrategyRoundRobin>;

/// The atoms of a head or a body: name and arity, and whether they are negated.
fn atoms(text: &str) -> Vec<(String, usize, bool)> {
    let mut result = Vec::new();
    let mut depth = 0;
    let mut start = 0;
    let mut parts = Vec::new();
    for (index, character) in text.char_indices() {
        match character {
            '(' => depth += 1,
            ')' => depth -= 1,
            ',' if depth == 0 => {
                parts.push(&text[start..index]);
                start = index + 1;
            }
            _ => {}
        }
    }
    parts.push(&text[start..]);
    for part in parts {
        let part = part.trim();
        let negated = part.starts_with('~');
        let part = part.trim_start_matches('~');
        let open = part.find('(').expect("an atom has arguments");
        result.push((
            part[..open].to_string(),
            part[open..].split(',').count(),
            negated,
        ));
    }
    result
}

/// The rules of a program, without its facts.
fn normalize(program: &str) -> Vec<NormalizedRule> {
    program
        .split(" .")
        .filter_map(|statement| statement.split_once(":-"))
        .map(|(head, body)| {
            let tags = |negated: bool| {
                let mut seen = BTreeSet::new();
                atoms(body)
                    .into_iter()
                    .filter(|atom| atom.2 == negated && seen.insert(atom.0.clone()))
                    .map(|(name, arity, _)| (Tag::new(name), arity))
                    .collect::<Vec<_>>()
            };
            NormalizedRule::new(
                tags(false),
                tags(true),
                atoms(head)
                    .into_iter()
                    .map(|(name, arity, _)| (Tag::new(name), arity))
                    .collect(),
                head.contains('#'),
            )
        })
        .collect()
}

/// Return the dependency graph built for `program`
/// as a set of `(from_rule, to_rule, label)` triples.
fn edges(program: &str) -> BTreeSet<(usize, usize, EdgeLabel)> {
    let normalized = normalize(program);
    let rules = normalized.iter().collect::<Vec<_>>();
    let graph = Strategy::build_graph(&rules);
    let listed = graph.edges();
    let edges: BTreeSet<_> = listed.iter().copied().collect();
    assert_eq!(edges.len(), listed.len(), "every edge should be there once");
    edges
}

/// Return the strata computed for `program`, or `None` if it is not stratifiable.
fn strata(program: &str) -> Option<Vec<Vec<usize>>> {
    let normalized = normalize(program);
    let rules = normalized.iter().collect::<Vec<_>>();

    match Strategy::new(rules) {
        Ok(strategy) => Some(strategy.ordered_strata().clone()),
        Err(SelectionStrategyError::NonStratifiedProgram) => None,
    }
}

/// Drive the strategy until it reports that no rule is left,
/// always claiming that the last rule application produced no new derivations.
fn rule_order(program: &str) -> Vec<usize> {
    let normalized = normalize(program);
    let rules = normalized.iter().collect::<Vec<_>>();
    let mut strategy = match Strategy::new(rules) {
        Ok(strategy) => strategy,
        Err(error) => panic!("program is stratifiable, but got {error:?}"),
    };

    let mut result = Vec::new();
    let mut derivations = None;

    while let Some(rule) = strategy.next_rule(derivations) {
        result.push(rule);
        derivations = Some(false);
    }

    result
}

const PROGRAM: &str = "
    edge(1, 2) . edge(2, 3) . edge(3, 1) .

    a(?x) :- total(?x) .
    total(#count(?x)) :- acyclic(?x) .

    b(?x) :- a(?x) .
    a(?x) :- b(?x) .

    acyclic(?x) :- source(?x), ~cyclic(?x) .

    source(?x), sink(?y) :- reachable(?x, ?y) .

    cyclic(?x) :- reachable(?x, ?y), reachable(?y, ?x) .

    reachable(?x, ?z) :- reachable(?x, ?y), edge(?y, ?z) .

    reachable(?x, ?y) :- edge(?x, ?y) .
";

#[test]
fn dependency_graph() {
    assert_eq!(
        edges(PROGRAM),
        BTreeSet::from([
            // rule 1 derives `total`, which rule 0 consumes
            (1, 0, EdgeLabel::Positive),
            // the aggregate of rule 1 turns its body into a negative dependency
            (4, 1, EdgeLabel::Negative),
            // rules 0 and 3 derive `a`, which rule 2 consumes
            (0, 2, EdgeLabel::Positive),
            (3, 2, EdgeLabel::Positive),
            // rule 2 derives `b`, which rule 3 consumes
            (2, 3, EdgeLabel::Positive),
            // rule 5 derives `source`, rule 6 derives the negated `cyclic`
            (5, 4, EdgeLabel::Positive),
            (6, 4, EdgeLabel::Negative),
            // rules 7 and 8 derive `reachable`, which rules 5, 6 and 7 consume;
            // the two body atoms of rule 6 do not make its dependencies count twice
            (7, 5, EdgeLabel::Positive),
            (7, 6, EdgeLabel::Positive),
            (7, 7, EdgeLabel::Positive),
            (8, 5, EdgeLabel::Positive),
            (8, 6, EdgeLabel::Positive),
            (8, 7, EdgeLabel::Positive),
        ])
    );
}

#[test]
fn stratification() {
    assert_eq!(
        strata(PROGRAM),
        Some(vec![vec![5, 6, 7, 8], vec![4], vec![0, 1, 2, 3]])
    );
}

#[test]
fn rule_selection() {
    assert_eq!(rule_order(PROGRAM), vec![5, 6, 7, 8, 4, 0, 1, 2, 3]);
}

#[test]
fn not_stratified() {
    // `c` is derived from `a` but also negated in the derivation of `a`.
    assert_eq!(
        strata(
            "a(?x) :- b(?x), ~c(?x) .
                 c(?x) :- a(?x) ."
        ),
        None
    );

    // A rule negating its own head predicate.
    assert_eq!(strata("a(?x) :- b(?x), ~a(?x) ."), None);
}

#[test]
fn no_rules_have_no_strata() {
    assert_eq!(strata(""), Some(Vec::new()));
    assert_eq!(rule_order(""), Vec::<usize>::new());
}

#[test]
fn positive_cycles_are_one_stratum() {
    assert_eq!(
        strata("a(?x) :- b(?x) . b(?x) :- a(?x) . c(?x) :- ~a(?x), b(?x) ."),
        Some(vec![vec![0, 1], vec![2]])
    );
}

#[test]
fn aggregating_over_what_one_derives_is_not_stratified() {
    assert_eq!(
        strata("n(#count(?x)) :- m(?x) . m(?x) :- n(?x) ."),
        None
    );
}

#[test]
fn a_stratum_is_repeated_while_it_derives_something_new() {
    let normalized = normalize("a(?x) :- b(?x) . b(?x) :- a(?x) . c(?x) :- ~a(?x) .");
    let rules = normalized.iter().collect::<Vec<_>>();
    let mut strategy = match Strategy::new(rules) {
        Ok(strategy) => strategy,
        Err(error) => panic!("{error:?}"),
    };
    assert_eq!(strategy.next_rule(None), Some(0));
    assert_eq!(strategy.next_rule(Some(true)), Some(1));
    assert_eq!(strategy.next_rule(Some(false)), Some(0));
    assert_eq!(strategy.next_rule(Some(false)), Some(2));
    assert_eq!(strategy.next_rule(Some(true)), Some(2));
    assert_eq!(strategy.next_rule(Some(false)), None);
    assert_eq!(strategy.next_rule(Some(true)), None);
}

#[test]
fn graphs_list_their_edges_and_stratify() {
    let mut graph = NegationGraph::with_nodes(3);
    assert_eq!(graph.edges(), Vec::new());
    assert_eq!(graph.stratify(), Some(vec![vec![0, 1, 2]]));
    graph.add_edge(2, 0, EdgeLabel::Negative);
    graph.add_edge(0, 1, EdgeLabel::Positive);
    assert_eq!(
        graph.edges(),
        vec![(2, 0, EdgeLabel::Negative), (0, 1, EdgeLabel::Positive)]
    );
    assert_eq!(graph.stratify(), Some(vec![vec![2], vec![0, 1]]));
    graph.add_edge(1, 2, EdgeLabel::Positive);
    assert_eq!(graph.stratify(), None);
}

#[test]
fn strategies_can_be_shown() {
    let normalized = normalize("a(?x) :- b(?x) .");
    let strategy = Strategy::new(normalized.iter().collect()).expect("there is no negation");
    assert!(format!("{strategy:?}").contains("StrategyStratifiedNegation"));
}
