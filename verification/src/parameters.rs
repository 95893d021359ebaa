//! Bindings of global parameters, kept in one order.

use vstd::prelude::*;
use vstd::string::*;
use vstd::utf8::*;

use crate::text::{lemma_utf8_injective, same_text};

verus! {

/// Whether `left` comes before `right` byte by byte.
pub open spec fn bytes_before(left: Seq<u8>, right: Seq<u8>) -> bool
    decreases left.len(),
{
    if right.len() == 0 {
        false
    } else if left.len() == 0 {
        true
    } else if left[0] != right[0] {
        left[0] < right[0]
    } else {
        bytes_before(left.skip(1), right.skip(1))
    }
}

/// Whether `left` comes before `right`: by the bytes of their UTF-8 forms.
pub open spec fn comes_before(left: Seq<char>, right: Seq<char>) -> bool {
    bytes_before(encode_utf8(left), encode_utf8(right))
}

proof fn lemma_bytes_order(left: Seq<u8>, right: Seq<u8>)
    ensures
        !bytes_before(left, left),
        bytes_before(left, right) ==> !bytes_before(right, left),
        left != right ==> bytes_before(left, right) || bytes_before(right, left),
    decreases left.len(),
{
    if left.len() > 0 {
        lemma_bytes_order(left.skip(1), right.skip(1));
        if right.len() > 0 && left[0] == right[0] && left.skip(1) == right.skip(1) {
            assert(left =~= seq![left[0]] + left.skip(1));
            assert(right =~= seq![right[0]] + right.skip(1));
        }
    } else {
        if right.len() == 0 {
            assert(left =~= right);
        }
    }
}

proof fn lemma_bytes_transitive(first: Seq<u8>, second: Seq<u8>, third: Seq<u8>)
    requires
        bytes_before(first, second),
        bytes_before(second, third),
    ensures
        bytes_before(first, third),
    decreases first.len(),
{
    if first.len() > 0 && first[0] == second[0] && second[0] == third[0] {
        lemma_bytes_transitive(first.skip(1), second.skip(1), third.skip(1));
    }
}

/// The order of texts is strict and total.
pub proof fn lemma_text_order(left: Seq<char>, right: Seq<char>)
    ensures
        !comes_before(left, left),
        comes_before(left, right) ==> !comes_before(right, left),
        left != right ==> comes_before(left, right) || comes_before(right, left),
{
    lemma_bytes_order(encode_utf8(left), encode_utf8(right));
    if encode_utf8(left) == encode_utf8(right) {
        lemma_utf8_injective(left, right);
    }
}

/// The order of texts is transitive.
pub proof fn lemma_text_transitive(first: Seq<char>, second: Seq<char>, third: Seq<char>)
    requires
        comes_before(first, second),
        comes_before(second, third),
    ensures
        comes_before(first, third),
{
    lemma_bytes_transitive(encode_utf8(first), encode_utf8(second), encode_utf8(third));
}

/// Whether `left` comes before `right`.
pub fn is_before(left: &str, right: &str) -> (before: bool)
    ensures
        before == comes_before(left@, right@),
{
    let a = left.as_bytes();
    let b = right.as_bytes();
    let mut index: usize = 0;
    assert(a@.skip(0) =~= a@);
    assert(b@.skip(0) =~= b@);
    while index < a.len() && index < b.len()
        invariant
            index <= a@.len(),
            index <= b@.len(),
            a@ == encode_utf8(left@),
            b@ == encode_utf8(right@),
            bytes_before(a@, b@) == bytes_before(a@.skip(index as int), b@.skip(index as int)),
        decreases a@.len() - index,
    {
        assert(a@.skip(index as int).skip(1) =~= a@.skip(index + 1));
        assert(b@.skip(index as int).skip(1) =~= b@.skip(index + 1));
        if a[index] != b[index] {
            return a[index] < b[index];
        }
        index = index + 1;
    }
    index < b.len()
}

/// Whether the names strictly ascend.
pub open spec fn names_ascend(bindings: Seq<(Seq<char>, Seq<char>)>) -> bool {
    forall|i: int, j: int|
        0 <= i < j < bindings.len() ==> comes_before(
            (#[trigger] bindings[i]).0,
            (#[trigger] bindings[j]).0,
        )
}

/// The value that a name is bound to.
pub open spec fn bound_value(bindings: Seq<(Seq<char>, Seq<char>)>, name: Seq<char>) -> Option<
    Seq<char>,
> {
    if exists|i: int| 0 <= i < bindings.len() && (#[trigger] bindings[i]).0 == name {
        Some(
            bindings[choose|i: int| 0 <= i < bindings.len() && (#[trigger] bindings[i]).0 == name].1,
        )
    } else {
        None
    }
}

/// What a list of bindings says.
pub open spec fn bindings_view(bindings: Seq<(String, String)>) -> Seq<(Seq<char>, Seq<char>)> {
    Seq::new(bindings.len(), |i: int| (bindings[i].0@, bindings[i].1@))
}

/// Global parameter bindings, in ascending order of their names, so that equal
/// bindings are always written alike.
#[derive(Debug, PartialEq, Eq)]
pub struct Parameters {
    bindings: Vec<(String, String)>,
}

impl View for Parameters {
    type V = Seq<(Seq<char>, Seq<char>)>;

    closed spec fn view(&self) -> Seq<(Seq<char>, Seq<char>)> {
        bindings_view(self.bindings@)
    }
}

/// Each name is bound to the value that stands beside it.
pub proof fn lemma_bound(bindings: Seq<(Seq<char>, Seq<char>)>, place: int)
    requires
        names_ascend(bindings),
        0 <= place < bindings.len(),
    ensures
        bound_value(bindings, bindings[place].0) == Some(bindings[place].1),
{
    let name = bindings[place].0;
    let found = choose|i: int| 0 <= i < bindings.len() && (#[trigger] bindings[i]).0 == name;
    lemma_text_order(name, name);
    assert(found == place) by {
        if found < place {
            assert(comes_before(bindings[found].0, bindings[place].0));
        }
        if place < found {
            assert(comes_before(bindings[place].0, bindings[found].0));
        }
    }
}

proof fn lemma_bound_front(bindings: Seq<(Seq<char>, Seq<char>)>, name: Seq<char>)
    requires
        names_ascend(bindings),
        bindings.len() > 0,
    ensures
        names_ascend(bindings.drop_last()),
        bound_value(bindings.drop_last(), name) == (if name == bindings.last().0 {
            None
        } else {
            bound_value(bindings, name)
        }),
{
    let front = bindings.drop_last();
    let last = bindings.len() - 1;
    assert forall|i: int, j: int| 0 <= i < j < front.len() implies comes_before(
        (#[trigger] front[i]).0,
        (#[trigger] front[j]).0,
    ) by {
        assert(comes_before(bindings[i].0, bindings[j].0));
    }
    if exists|i: int| 0 <= i < front.len() && (#[trigger] front[i]).0 == name {
        let place = choose|i: int| 0 <= i < front.len() && (#[trigger] front[i]).0 == name;
        lemma_bound(front, place);
        lemma_bound(bindings, place);
        assert(comes_before(bindings[place].0, bindings[last].0));
        lemma_text_order(name, name);
    } else if name != bindings.last().0 {
        assert forall|i: int| 0 <= i < bindings.len() implies (#[trigger] bindings[i]).0
            != name by {
            if i < front.len() {
                assert(front[i] == bindings[i]);
            }
        }
    }
}

/// Bindings that bind every name alike are the same, in the same order.
pub proof fn lemma_bindings_determined(
    left: Seq<(Seq<char>, Seq<char>)>,
    right: Seq<(Seq<char>, Seq<char>)>,
)
    requires
        names_ascend(left),
        names_ascend(right),
        forall|name: Seq<char>| #[trigger] bound_value(left, name) == bound_value(right, name),
    ensures
        left == right,
    decreases left.len(),
{
    if left.len() == 0 {
        if right.len() > 0 {
            lemma_bound(right, 0);
            assert(bound_value(left, right[0].0) is Some);
        }
        assert(left =~= right);
    } else {
        let a = left.len() - 1;
        lemma_bound(left, a);
        assert(bound_value(right, left[a].0) is Some);
        let in_right = choose|i: int| 0 <= i < right.len() && (#[trigger] right[i]).0 == left[a].0;
        let b = right.len() - 1;
        lemma_bound(right, b);
        assert(bound_value(left, right[b].0) is Some);
        let in_left = choose|i: int| 0 <= i < left.len() && (#[trigger] left[i]).0 == right[b].0;
        assert(left[a].0 == right[b].0) by {
            if in_right < b && in_left < a {
                assert(comes_before(right[in_right].0, right[b].0));
                assert(comes_before(left[in_left].0, left[a].0));
                lemma_text_order(left[a].0, right[b].0);
            }
        }
        assert forall|name: Seq<char>| #[trigger]
            bound_value(left.drop_last(), name) == bound_value(right.drop_last(), name) by {
            lemma_bound_front(left, name);
            lemma_bound_front(right, name);
            assert(bound_value(left, name) == bound_value(right, name));
        }
        lemma_bound_front(left, left[a].0);
        lemma_bound_front(right, right[b].0);
        lemma_bindings_determined(left.drop_last(), right.drop_last());
        assert(left =~= left.drop_last().push(left.last()));
        assert(right =~= right.drop_last().push(right.last()));
    }
}

impl Parameters {
    /// Whether the names strictly ascend.
    #[verifier::type_invariant]
    spec fn sorted(self) -> bool {
        names_ascend(self@)
    }

    /// No bindings.
    pub fn new() -> (parameters: Self)
        ensures
            parameters@ == Seq::<(Seq<char>, Seq<char>)>::empty(),
    {
        let parameters = Parameters { bindings: Vec::new() };
        assert(parameters@ =~= Seq::<(Seq<char>, Seq<char>)>::empty());
        parameters
    }

    /// These bindings with `name` bound to `value`, in the place of what it was
    /// bound to.
    pub fn with(self, name: String, value: String) -> (parameters: Self)
        ensures
            names_ascend(parameters@),
            forall|other: Seq<char>| #[trigger]
                bound_value(parameters@, other) == (if other == name@ {
                    Some(value@)
                } else {
                    bound_value(self@, other)
                }),
    {
        proof {
            use_type_invariant(&self);
        }
        let ghost before = self@;
        let mut bindings = self.bindings;
        let mut place: usize = 0;
        while place < bindings.len() && is_before(bindings[place].0.as_str(), name.as_str())
            invariant
                place <= bindings@.len(),
                before == bindings_view(bindings@),
                forall|i: int| 0 <= i < place ==> comes_before((#[trigger] before[i]).0, name@),
            decreases bindings@.len() - place,
        {
            assert(before[place as int].0 == bindings@[place as int].0@);
            place = place + 1;
        }
        let ghost bound = (name@, value@);
        let ghost expected;
        if place < bindings.len() && same_text(bindings[place].0.as_str(), name.as_str()) {
            proof {
                expected = before.update(place as int, bound);
            }
            bindings.set(place, (name, value));
        } else {
            proof {
                expected = before.insert(place as int, bound);
                if place < before.len() {
                    lemma_text_order(before[place as int].0, name@);
                    assert forall|i: int| place <= i < before.len() implies comes_before(
                        name@,
                        (#[trigger] before[i]).0,
                    ) by {
                        if place < i {
                            assert(comes_before(before[place as int].0, before[i].0));
                            lemma_text_transitive(name@, before[place as int].0, before[i].0);
                        }
                    }
                }
            }
            bindings.insert(place, (name, value));
        }
        assert(bindings_view(bindings@) =~= expected);
        assert(names_ascend(expected)) by {
            assert forall|i: int, j: int| 0 <= i < j < expected.len() implies comes_before(
                (#[trigger] expected[i]).0,
                (#[trigger] expected[j]).0,
            ) by {
                if expected.len() == before.len() {
                    assert(comes_before(before[i].0, before[j].0));
                } else {
                    let a = if i > place {
                        i - 1
                    } else {
                        i
                    };
                    let b = if j > place {
                        j - 1
                    } else {
                        j
                    };
                    if i != place && j != place {
                        assert(comes_before(before[a].0, before[b].0));
                    } else if i == place {
                        assert(expected[j] == before[b]);
                    } else {
                        assert(expected[i] == before[a]);
                    }
                }
            }
        }
        assert forall|other: Seq<char>| #[trigger]
            bound_value(expected, other) == (if other == name@ {
                Some(value@)
            } else {
                bound_value(before, other)
            }) by {
            assert(expected[place as int] == bound);
            if other == name@ {
                lemma_bound(expected, place as int);
            } else if exists|i: int| 0 <= i < before.len() && (#[trigger] before[i]).0 == other {
                let i = choose|i: int| 0 <= i < before.len() && (#[trigger] before[i]).0 == other;
                let j = if expected.len() == before.len() || i < place {
                    i
                } else {
                    i + 1
                };
                assert(expected[j] == before[i]);
                lemma_bound(before, i);
                lemma_bound(expected, j);
            } else {
                assert forall|j: int| 0 <= j < expected.len() implies (#[trigger] expected[j]).0
                    != other by {
                    if j != place {
                        let i = if expected.len() == before.len() || j < place {
                            j
                        } else {
                            j - 1
                        };
                        assert(expected[j] == before[i]);
                    }
                }
            }
        }
        Parameters { bindings }
    }

    /// Binds `name` to `value`, in the place of what it was bound to.
    pub fn insert(&mut self, name: String, value: String)
        ensures
            names_ascend(final(self)@),
            forall|other: Seq<char>| #[trigger]
                bound_value(final(self)@, other) == (if other == name@ {
                    Some(value@)
                } else {
                    bound_value(old(self)@, other)
                }),
    {
        let mut taken = Parameters::new();
        std::mem::swap(&mut taken, self);
        *self = taken.with(name, value);
    }

    /// The bindings in ascending order of their names.
    pub fn bindings(&self) -> (bindings: &Vec<(String, String)>)
        ensures
            bindings_view(bindings@) == self@,
            names_ascend(self@),
    {
        proof {
            use_type_invariant(self);
        }
        &self.bindings
    }

    /// Whether two lists of bindings are the same.
    pub fn same(&self, other: &Self) -> (same: bool)
        ensures
            same == (self@ == other@),
    {
        if self.bindings.len() != other.bindings.len() {
            assert(self@.len() != other@.len());
            return false;
        }
        let mut index: usize = 0;
        while index < self.bindings.len()
            invariant
                index <= self.bindings@.len() == other.bindings@.len(),
                self@ == bindings_view(self.bindings@),
                other@ == bindings_view(other.bindings@),
                forall|i: int| 0 <= i < index ==> self@[i] == other@[i],
            decreases self.bindings@.len() - index,
        {
            if !same_text(self.bindings[index].0.as_str(), other.bindings[index].0.as_str())
                || !same_text(self.bindings[index].1.as_str(), other.bindings[index].1.as_str()) {
                assert(self@[index as int] != other@[index as int]);
                return false;
            }
            index = index + 1;
        }
        assert(self@ =~= other@);
        true
    }
}

impl Clone for Parameters {
    fn clone(&self) -> (copy: Self)
        ensures
            copy@ == self@,
    {
        proof {
            use_type_invariant(self);
        }
        let mut bindings: Vec<(String, String)> = Vec::new();
        let mut index: usize = 0;
        while index < self.bindings.len()
            invariant
                index <= self.bindings@.len(),
                bindings@.len() == index,
                forall|i: int|
                    0 <= i < index ==> (#[trigger] bindings@[i]).0@ == self.bindings@[i].0@
                        && bindings@[i].1@ == self.bindings@[i].1@,
            decreases self.bindings@.len() - index,
        {
            bindings.push((self.bindings[index].0.clone(), self.bindings[index].1.clone()));
            index = index + 1;
        }
        assert(bindings_view(bindings@) =~= self@);
        Parameters { bindings }
    }
}

proof fn lemma_first_difference(left: Seq<u8>, right: Seq<u8>) -> (place: int)
    ensures
        0 <= place <= left.len(),
        place <= right.len(),
        left.take(place) == right.take(place),
        place == left.len() || place == right.len() || left[place] != right[place],
        bytes_before(left, right) <==> place < right.len() && (place == left.len() || left[place]
            < right[place]),
    decreases left.len(),
{
    if left.len() > 0 && right.len() > 0 && left[0] == right[0] {
        let rest = lemma_first_difference(left.skip(1), right.skip(1));
        assert(left.take(rest + 1) =~= seq![left[0]] + left.skip(1).take(rest));
        assert(right.take(rest + 1) =~= seq![right[0]] + right.skip(1).take(rest));
        assert(rest < left.skip(1).len() ==> left.skip(1)[rest] == left[rest + 1]);
        assert(rest < right.skip(1).len() ==> right.skip(1)[rest] == right[rest + 1]);
        rest + 1
    } else {
        assert(left.take(0) =~= right.take(0));
        0
    }
}

/// Names are ordered by the first byte in which they differ, and one that the other
/// starts with comes first.
pub proof fn lemma_first_byte_decides(left: Seq<char>, right: Seq<char>) -> (place: int)
    ensures
        ({
            let a = encode_utf8(left);
            let b = encode_utf8(right);
            &&& 0 <= place <= a.len()
            &&& place <= b.len()
            &&& a.take(place) == b.take(place)
            &&& place == a.len() || place == b.len() || a[place] != b[place]
            &&& comes_before(left, right) <==> place < b.len() && (place == a.len() || a[place]
                < b[place])
        }),
{
    lemma_first_difference(encode_utf8(left), encode_utf8(right))
}

/// What a list of bindings says is its names and values, in their order.
pub proof fn lemma_bindings_say_their_parts(bindings: Seq<(String, String)>, place: int)
    ensures
        bindings_view(bindings).len() == bindings.len(),
        0 <= place < bindings.len() ==> bindings_view(bindings)[place].0 == bindings[place].0@,
        0 <= place < bindings.len() ==> bindings_view(bindings)[place].1 == bindings[place].1@,
{
}

} // verus!
