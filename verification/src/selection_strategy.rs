//! In which order rules are applied.

use vstd::prelude::*;

use crate::rules::{NormalizedRule, RuleView};

pub mod strategy_round_robin;
pub mod strategy_stratified_negation;

verus! {

/// Why there is no order in which rules can be applied.
#[derive(Clone, Copy, Debug, PartialEq, Eq, Structural)]
pub enum SelectionStrategyError {
    /// The rules cannot be divided into strata.
    NonStratifiedProgram,
}

/// What a list of rules says.
pub open spec fn rules_view(rules: Seq<&NormalizedRule>) -> Seq<RuleView> {
    Seq::new(rules.len(), |i: int| rules[i]@)
}

/// A strategy that decides which rule is applied next.
pub trait RuleSelectionStrategy: View + Sized {
    /// The state of a strategy for the given rules, or why there is none.
    spec fn start(rules: Seq<RuleView>) -> Result<Self::V, SelectionStrategyError>;

    /// The next rule and the next state, given whether the last rule derived
    /// anything new.
    spec fn advance(state: Self::V, new_derivations: Option<bool>) -> (Option<usize>, Self::V);

    /// Whether a state is one for as many rules.
    spec fn serves(state: Self::V, rule_count: nat) -> bool;

    /// A strategy starts with a state for all its rules.
    proof fn lemma_start(rules: Seq<RuleView>)
        ensures
            Self::start(rules) matches Ok(state) ==> Self::serves(state, rules.len()),
    ;

    /// A strategy only ever selects among its rules.
    proof fn lemma_advance(state: Self::V, rule_count: nat, new_derivations: Option<bool>)
        requires
            Self::serves(state, rule_count),
        ensures
            Self::serves(Self::advance(state, new_derivations).1, rule_count),
            Self::advance(state, new_derivations).0 matches Some(rule) ==> rule < rule_count,
    ;

    /// Creates a strategy for the given rules.
    fn new(rules: Vec<&NormalizedRule>) -> (strategy: Result<Self, SelectionStrategyError>)
        ensures
            match Self::start(rules_view(rules@)) {
                Ok(state) => strategy matches Ok(made) && made@ == state,
                Err(error) => strategy matches Err(got) && got == error,
            },
    ;

    /// Selects the next rule, by its index. Takes whether the last rule that was
    /// selected derived anything new, or `None` where there was no last rule.
    fn next_rule(&mut self, new_derivations: Option<bool>) -> (rule: Option<usize>)
        requires
            exists|rule_count: nat| Self::serves(old(self)@, rule_count),
        ensures
            (rule, final(self)@) == Self::advance(old(self)@, new_derivations),
    ;
}

/// What a strategy has selected last, and its state then, once it was asked for a
/// first rule and after that was told, time and again, whether the rule before
/// derived anything new.
pub open spec fn after_calls<S: RuleSelectionStrategy>(state: S::V, news: Seq<bool>) -> (
    Option<usize>,
    S::V,
)
    decreases news.len(),
{
    if news.len() == 0 {
        S::advance(state, None)
    } else {
        S::advance(after_calls::<S>(state, news.drop_last()).1, Some(news.last()))
    }
}

/// Whether the last `count` rules in a row derived nothing new.
pub open spec fn fruitless_round(news: Seq<bool>, count: nat) -> bool {
    &&& count <= news.len()
    &&& forall|i: int| news.len() - count <= i < news.len() ==> !#[trigger] news[i]
}

/// What a list of rules says is what each of them says, in their order.
pub proof fn lemma_rules_say_their_parts(rules: Seq<&NormalizedRule>, place: int)
    ensures
        rules_view(rules).len() == rules.len(),
        0 <= place < rules.len() ==> rules_view(rules)[place] == rules[place]@,
{
}

} // verus!
