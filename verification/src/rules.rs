//! Rules, as far as their evaluation order depends on them.

use vstd::prelude::*;
use vstd::string::*;

use crate::text::same_text;

verus! {

/// The name of a predicate.
#[derive(Debug, PartialEq, Eq)]
pub struct Tag {
    name: String,
}

impl View for Tag {
    type V = Seq<char>;

    closed spec fn view(&self) -> Seq<char> {
        self.name@
    }
}

impl Tag {
    /// The tag with the given name.
    pub fn new(name: String) -> (tag: Self)
        ensures
            tag@ == name@,
    {
        Tag { name }
    }

    /// The name of this tag.
    pub fn name(&self) -> (name: &str)
        ensures
            name@ == self@,
    {
        self.name.as_str()
    }
}

/// A rule: the predicates of its body and of its head, each with its arity, and
/// whether its head aggregates.
#[derive(Debug)]
pub struct NormalizedRule {
    positive: Vec<(Tag, usize)>,
    negative: Vec<(Tag, usize)>,
    head: Vec<(Tag, usize)>,
    aggregates: bool,
}

/// What a [NormalizedRule] says.
pub struct RuleView {
    pub positive: Seq<(Seq<char>, usize)>,
    pub negative: Seq<(Seq<char>, usize)>,
    pub head: Seq<(Seq<char>, usize)>,
    pub aggregates: bool,
}

/// What a list of predicates says.
pub open spec fn predicates_view(predicates: Seq<(Tag, usize)>) -> Seq<(Seq<char>, usize)> {
    Seq::new(predicates.len(), |i: int| (predicates[i].0@, predicates[i].1))
}

impl View for NormalizedRule {
    type V = RuleView;

    closed spec fn view(&self) -> RuleView {
        RuleView {
            positive: predicates_view(self.positive@),
            negative: predicates_view(self.negative@),
            head: predicates_view(self.head@),
            aggregates: self.aggregates,
        }
    }
}

impl NormalizedRule {
    /// A rule with the given predicates.
    pub fn new(
        positive: Vec<(Tag, usize)>,
        negative: Vec<(Tag, usize)>,
        head: Vec<(Tag, usize)>,
        aggregates: bool,
    ) -> (rule: Self)
        ensures
            rule@ == (RuleView {
                positive: predicates_view(positive@),
                negative: predicates_view(negative@),
                head: predicates_view(head@),
                aggregates,
            }),
    {
        NormalizedRule { positive, negative, head, aggregates }
    }

    /// The predicates of the body that are not negated.
    pub fn predicates_positive(&self) -> (predicates: &Vec<(Tag, usize)>)
        ensures
            predicates_view(predicates@) == self@.positive,
    {
        &self.positive
    }

    /// The negated predicates of the body.
    pub fn predicates_negative(&self) -> (predicates: &Vec<(Tag, usize)>)
        ensures
            predicates_view(predicates@) == self@.negative,
    {
        &self.negative
    }

    /// The predicates of the head.
    pub fn predicates_head(&self) -> (predicates: &Vec<(Tag, usize)>)
        ensures
            predicates_view(predicates@) == self@.head,
    {
        &self.head
    }

    /// Whether the head aggregates over the body.
    pub fn contains_aggregates(&self) -> (aggregates: bool)
        ensures
            aggregates == self@.aggregates,
    {
        self.aggregates
    }
}

/// Whether two lists of predicates have a name in common.
pub open spec fn shares(
    left: Seq<(Seq<char>, usize)>,
    right: Seq<(Seq<char>, usize)>,
) -> bool {
    exists|i: int, j: int|
        0 <= i < left.len() && 0 <= j < right.len() && (#[trigger] left[i]).0 == (
        #[trigger] right[j]).0
}

/// Whether `body` uses something that `head` derives.
pub open spec fn needs(head: RuleView, body: RuleView) -> bool {
    !body.aggregates && shares(head.head, body.positive)
}

/// Whether `body` needs all of something that `head` derives: it negates it, or
/// aggregates over it.
pub open spec fn needs_all(head: RuleView, body: RuleView) -> bool {
    shares(head.head, body.negative) || (body.aggregates && shares(head.head, body.positive))
}

/// Whether two lists of predicates have a name in common.
pub fn have_common_predicate(left: &Vec<(Tag, usize)>, right: &Vec<(Tag, usize)>) -> (common: bool)
    ensures
        common == shares(predicates_view(left@), predicates_view(right@)),
{
    let ghost a = predicates_view(left@);
    let ghost b = predicates_view(right@);
    let mut i: usize = 0;
    while i < left.len()
        invariant
            i <= left@.len(),
            a == predicates_view(left@),
            b == predicates_view(right@),
            forall|k: int, l: int|
                0 <= k < i && 0 <= l < b.len() ==> (#[trigger] a[k]).0 != (#[trigger] b[l]).0,
        decreases left@.len() - i,
    {
        let mut j: usize = 0;
        while j < right.len()
            invariant
                i < left@.len(),
                j <= right@.len(),
                a == predicates_view(left@),
                b == predicates_view(right@),
                forall|l: int| 0 <= l < j ==> a[i as int].0 != (#[trigger] b[l]).0,
            decreases right@.len() - j,
        {
            if same_text(left[i].0.name(), right[j].0.name()) {
                assert(a[i as int].0 == b[j as int].0);
                return true;
            }
            j = j + 1;
        }
        i = i + 1;
    }
    false
}

/// What a list of predicates says is their names and arities, in their order.
pub proof fn lemma_predicates_say_their_parts(predicates: Seq<(Tag, usize)>, place: int)
    ensures
        predicates_view(predicates).len() == predicates.len(),
        0 <= place < predicates.len() ==> predicates_view(predicates)[place].0
            == predicates[place].0@,
        0 <= place < predicates.len() ==> predicates_view(predicates)[place].1
            == predicates[place].1,
{
}

/// Whether a list of predicates has one with the given name.
pub open spec fn has_name(predicates: Seq<(Seq<char>, usize)>, name: Seq<char>) -> bool {
    exists|i: int| 0 <= i < predicates.len() && (#[trigger] predicates[i]).0 == name
}

/// Two lists have a name in common exactly where a name stands in both; the arities do
/// not matter, nor does which list comes first.
pub proof fn lemma_common_names(
    left: Seq<(Seq<char>, usize)>,
    right: Seq<(Seq<char>, usize)>,
)
    ensures
        shares(left, right) <==> exists|name: Seq<char>| #[trigger]
            has_name(left, name) && #[trigger] has_name(right, name),
        shares(left, right) == shares(right, left),
{
    if shares(left, right) {
        let (i, j) = choose|i: int, j: int|
            0 <= i < left.len() && 0 <= j < right.len() && (#[trigger] left[i]).0 == (
            #[trigger] right[j]).0;
        assert(has_name(left, left[i].0) && has_name(right, left[i].0));
        assert(right[j].0 == left[i].0);
    }
    if shares(right, left) {
        let (j, i) = choose|j: int, i: int|
            0 <= j < right.len() && 0 <= i < left.len() && (#[trigger] right[j]).0 == (
            #[trigger] left[i]).0;
        assert(left[i].0 == right[j].0);
    }
    if exists|name: Seq<char>| #[trigger] has_name(left, name) && #[trigger] has_name(right, name) {
        let name = choose|name: Seq<char>| #[trigger]
            has_name(left, name) && #[trigger] has_name(right, name);
        let i = choose|i: int| 0 <= i < left.len() && (#[trigger] left[i]).0 == name;
        let j = choose|j: int| 0 <= j < right.len() && (#[trigger] right[j]).0 == name;
        assert(left[i].0 == right[j].0);
    }
}

} // verus!
