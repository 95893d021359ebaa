//! A strategy that applies rules one after the other, over and over.

use vstd::prelude::*;

use crate::rules::{NormalizedRule, RuleView};
use crate::selection_strategy::{
    after_calls, fruitless_round, rules_view, RuleSelectionStrategy, SelectionStrategyError,
};

verus! {

/// Applies rules in turn until none of them derives anything new.
#[derive(Debug)]
pub struct StrategyRoundRobin {
    rule_count: usize,
    current: usize,
    fruitless: usize,
}

/// The state of a [StrategyRoundRobin]: how many rules there are, which is the
/// current one, and how many applications in a row have derived nothing new.
pub struct RoundRobinView {
    pub rule_count: usize,
    pub current: usize,
    pub fruitless: usize,
}

impl View for StrategyRoundRobin {
    type V = RoundRobinView;

    closed spec fn view(&self) -> RoundRobinView {
        RoundRobinView {
            rule_count: self.rule_count,
            current: self.current,
            fruitless: self.fruitless,
        }
    }
}

/// The state once the current rule has been applied.
pub open spec fn applied(state: RoundRobinView, new_derivations: bool) -> RoundRobinView {
    RoundRobinView {
        rule_count: state.rule_count,
        current: if state.current + 1 < state.rule_count {
            (state.current + 1) as usize
        } else {
            0
        },
        fruitless: if new_derivations {
            0
        } else if state.fruitless < state.rule_count {
            (state.fruitless + 1) as usize
        } else {
            state.fruitless
        },
    }
}

/// The rule to apply, if not all rules in a row have derived nothing new.
pub open spec fn due(state: RoundRobinView) -> Option<usize> {
    if state.fruitless < state.rule_count {
        Some(state.current)
    } else {
        None
    }
}

impl RuleSelectionStrategy for StrategyRoundRobin {
    open spec fn start(rules: Seq<RuleView>) -> Result<RoundRobinView, SelectionStrategyError> {
        Ok(RoundRobinView { rule_count: rules.len() as usize, current: 0, fruitless: 0 })
    }

    open spec fn advance(state: RoundRobinView, new_derivations: Option<bool>) -> (
        Option<usize>,
        RoundRobinView,
    ) {
        let next = match new_derivations {
            Some(derived) => applied(state, derived),
            None => state,
        };
        (due(next), next)
    }

    open spec fn serves(state: RoundRobinView, rule_count: nat) -> bool {
        &&& state.rule_count <= rule_count
        &&& state.rule_count == 0 ==> state.current == 0
        &&& state.rule_count > 0 ==> state.current < state.rule_count
        &&& state.fruitless <= state.rule_count
    }

    proof fn lemma_start(rules: Seq<RuleView>) {
    }

    proof fn lemma_advance(
        state: RoundRobinView,
        rule_count: nat,
        new_derivations: Option<bool>,
    ) {
    }

    fn new(rules: Vec<&NormalizedRule>) -> (strategy: Result<Self, SelectionStrategyError>) {
        assert(rules_view(rules@).len() == rules@.len());
        Ok(StrategyRoundRobin { rule_count: rules.len(), current: 0, fruitless: 0 })
    }

    fn next_rule(&mut self, new_derivations: Option<bool>) -> (rule: Option<usize>) {
        if let Some(derived) = new_derivations {
            self.fruitless = if derived {
                0
            } else if self.fruitless < self.rule_count {
                self.fruitless + 1
            } else {
                self.fruitless
            };
            self.current = if self.rule_count > 0 && self.current < self.rule_count - 1 {
                self.current + 1
            } else {
                0
            };
        }
        if self.fruitless < self.rule_count {
            Some(self.current)
        } else {
            None
        }
    }
}

/// The rules take turns, starting with the first one, until a whole round of them
/// has derived nothing new: then, and only then, none is selected.
pub proof fn lemma_rules_take_turns(rules: Seq<RuleView>, state: RoundRobinView, news: Seq<bool>)
    requires
        rules.len() <= usize::MAX,
        StrategyRoundRobin::start(rules) == Ok::<_, SelectionStrategyError>(state),
    ensures
        after_calls::<StrategyRoundRobin>(state, news).0 == (if fruitless_round(
            news,
            rules.len(),
        ) {
            None
        } else {
            Some((news.len() as int % rules.len() as int) as usize)
        }),
{
    lemma_turns(rules, state, news);
    if rules.len() > 0 {
        let fruitless = after_calls::<StrategyRoundRobin>(state, news).1.fruitless;
        if fruitless < rules.len() && fruitless_round(news, rules.len()) {
            assert(!news[news.len() - 1 - fruitless]);
        }
    }
}

proof fn lemma_turns(rules: Seq<RuleView>, state: RoundRobinView, news: Seq<bool>)
    requires
        rules.len() <= usize::MAX,
        StrategyRoundRobin::start(rules) == Ok::<_, SelectionStrategyError>(state),
    ensures
        ({
            let (selected, next) = after_calls::<StrategyRoundRobin>(state, news);
            &&& selected == due(next)
            &&& next.rule_count == rules.len()
            &&& rules.len() == 0 ==> next.current == 0
            &&& rules.len() > 0 ==> next.current == news.len() as int % rules.len() as int
            &&& next.fruitless <= rules.len()
            &&& fruitless_round(news, next.fruitless as nat)
            &&& next.fruitless < rules.len() ==> next.fruitless == news.len()
                || news[news.len() - 1 - next.fruitless]
        }),
    decreases news.len(),
{
    if news.len() > 0 {
        let front = news.drop_last();
        lemma_turns(rules, state, front);
        let before = after_calls::<StrategyRoundRobin>(state, front).1;
        let next = after_calls::<StrategyRoundRobin>(state, news).1;
        assert forall|i: int| news.len() - next.fruitless <= i < news.len() implies !#[trigger]
            news[i] by {
            if i < front.len() {
                assert(news[i] == front[i]);
            }
        }
        if rules.len() > 0 {
            let n = rules.len() as int;
            let m = front.len() as int;
            assert((m + 1) % n == (if m % n + 1 < n {
                m % n + 1
            } else {
                0
            })) by (nonlinear_arith)
                requires
                    n > 0,
                    m >= 0,
            ;
        }
    }
}

/// Any rules can take turns, and asking again without having applied the selected rule
/// selects it again.
pub proof fn lemma_any_rules_take_turns(
    rules: Seq<RuleView>,
    state: RoundRobinView,
    new_derivations: Option<bool>,
)
    ensures
        StrategyRoundRobin::start(rules) is Ok,
        StrategyRoundRobin::advance(
            StrategyRoundRobin::advance(state, new_derivations).1,
            None,
        ) == StrategyRoundRobin::advance(state, new_derivations),
{
}

} // verus!
