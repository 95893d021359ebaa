//! A dictionary that keeps values of different domains apart.
//!
//! Ids are handed out from blocks of addresses, each of which belongs to one
//! sub-dictionary, so the id space has gaps and cannot be enumerated.

use vstd::prelude::*;

use crate::datavalues::{AnyDataValue, ValueView};
use crate::dictionary::DvDict;

verus! {

/// The number of addresses in a block.
pub const BLOCK_SIZE: usize = 0x100_0000;

/// The number of blocks there can be. The last id is never handed out.
pub const BLOCK_LIMIT: usize = usize::MAX / BLOCK_SIZE;

/// The id of values that have none.
pub const NONEXISTING_ID_MARK: usize = usize::MAX;

/// The number of sub-dictionaries.
pub const SUB_DICTIONARIES: usize = 6;

/// The sub-dictionary of the nulls.
pub const NULLS: usize = 4;

/// The result of adding a value.
#[derive(Debug, PartialEq, Eq)]
pub enum AddResult {
    /// The value is new and got this id.
    Fresh(usize),
    /// The value was there already, under this id.
    Known(usize),
    /// The value gets no id.
    Rejected,
}

impl AddResult {
    /// The id of the value, or [NONEXISTING_ID_MARK].
    pub fn value(&self) -> (id: usize)
        ensures
            id == match *self {
                AddResult::Fresh(id) => id,
                AddResult::Known(id) => id,
                AddResult::Rejected => NONEXISTING_ID_MARK,
            },
    {
        match self {
            AddResult::Fresh(id) => *id,
            AddResult::Known(id) => *id,
            AddResult::Rejected => NONEXISTING_ID_MARK,
        }
    }
}

/// The sub-dictionary for values of a domain. Numbers that a storage value
/// carries by itself have none.
pub open spec fn home_of(value: ValueView) -> Option<int> {
    match value {
        ValueView::PlainString(_) => Some(0),
        ValueView::LanguageTaggedString(_, _) => Some(1),
        ValueView::Iri(_) => Some(2),
        ValueView::Boolean(_) => Some(3),
        ValueView::UnsignedLong(_) => Some(3),
        ValueView::Other(_, _) => Some(3),
        ValueView::Null(_) => Some(NULLS as int),
        ValueView::Tuple(_, _) => Some(5),
        ValueView::MapValue(_, _) => Some(5),
        ValueView::Float(_) => None,
        ValueView::Double(_) => None,
        ValueView::Long(_) => None,
    }
}

fn find_home(value: &AnyDataValue) -> (home: Option<usize>)
    ensures
        match home_of(value@) {
            Some(expected) => home == Some(expected as usize) && expected < SUB_DICTIONARIES,
            None => home is None,
        },
{
    match value {
        AnyDataValue::PlainString(_) => Some(0),
        AnyDataValue::LanguageTaggedString(_, _) => Some(1),
        AnyDataValue::Iri(_) => Some(2),
        AnyDataValue::Boolean(_) => Some(3),
        AnyDataValue::UnsignedLong(_) => Some(3),
        AnyDataValue::Other(_, _) => Some(3),
        AnyDataValue::Null(_) => Some(NULLS),
        AnyDataValue::Tuple(_, _) => Some(5),
        AnyDataValue::MapValue(_, _) => Some(5),
        AnyDataValue::Float(_) => None,
        AnyDataValue::Double(_) => None,
        AnyDataValue::Long(_) => None,
    }
}

/// Values of one kind, and the blocks whose addresses they have.
struct SubDictionary {
    values: Vec<AnyDataValue>,
    blocks: Vec<usize>,
}

/// A dictionary made of sub-dictionaries.
pub struct MetaDvDictionary {
    subs: Vec<SubDictionary>,
    /// For each block its sub-dictionary, and which of that one's blocks it is.
    owners: Vec<(usize, usize)>,
}

impl MetaDvDictionary {
    spec fn place_of(&self, id: usize) -> Option<(int, int)> {
        let block = (id / BLOCK_SIZE) as int;
        if block < self.owners@.len() {
            let (home, ordinal) = self.owners@[block];
            if home < self.subs@.len() {
                let place = ordinal * BLOCK_SIZE + id % BLOCK_SIZE;
                if place < self.subs@[home as int].values@.len() {
                    Some((home as int, place))
                } else {
                    None
                }
            } else {
                None
            }
        } else {
            None
        }
    }

    /// Whether the blocks and their owners agree, and every value lives where
    /// values like it do, once.
    pub closed spec fn wf(&self) -> bool {
        &&& self.subs@.len() == SUB_DICTIONARIES
        &&& self.owners@.len() <= BLOCK_LIMIT
        &&& forall|block: int|
            0 <= block < self.owners@.len() ==> {
                let (home, ordinal) = #[trigger] self.owners@[block];
                &&& home < SUB_DICTIONARIES
                &&& ordinal < self.subs@[home as int].blocks@.len()
                &&& self.subs@[home as int].blocks@[ordinal as int] == block
            }
        &&& forall|home: int, ordinal: int|
            0 <= home < SUB_DICTIONARIES && 0 <= ordinal < self.subs@[home].blocks@.len() ==> (
            #[trigger] self.subs@[home].blocks@[ordinal]) < self.owners@.len()
                && self.owners@[self.subs@[home].blocks@[ordinal] as int].0 == home
                && self.owners@[self.subs@[home].blocks@[ordinal] as int].1 == ordinal
        &&& forall|home: int|
            0 <= home < SUB_DICTIONARIES ==> (#[trigger] self.subs@[home]).values@.len()
                <= self.subs@[home].blocks@.len() * BLOCK_SIZE
        &&& forall|home: int, place: int|
            0 <= home < SUB_DICTIONARIES && 0 <= place < self.subs@[home].values@.len() ==> home_of(
                (#[trigger] self.subs@[home].values@[place])@,
            ) == Some(home)
        &&& forall|home: int, place: int|
            0 <= home < SUB_DICTIONARIES && 0 <= place < self.subs@[home].values@.len() && home
                == NULLS ==> (#[trigger] self.subs@[home].values@[place])@ == ValueView::Null(
                self.address(home, place) as usize,
            )
    }

    /// The id of the value at a place of a sub-dictionary.
    spec fn address(&self, home: int, place: int) -> int {
        self.subs@[home].blocks@[place / BLOCK_SIZE as int] * BLOCK_SIZE + place % (
        BLOCK_SIZE as int)
    }

    spec fn has_address(&self, home: int) -> bool {
        self.subs@[home].values@.len() < self.subs@[home].blocks@.len() * BLOCK_SIZE
    }

    /// Whether a value has an id.
    pub open spec fn knows(&self, value: ValueView) -> bool {
        exists|id: usize| #[trigger] self.resolve(id) == Some(value)
    }

    /// Whether there is no address left for another value in a sub-dictionary.
    pub closed spec fn full(&self, home: int) -> bool {
        &&& self.owners@.len() == BLOCK_LIMIT
        &&& self.subs@[home].values@.len() == self.subs@[home].blocks@.len() * BLOCK_SIZE
    }

    /// A dictionary without values.
    pub fn new() -> (dictionary: Self)
        ensures
            dictionary.wf(),
            forall|id: usize| #[trigger] dictionary.resolve(id) is None,
            forall|home: int| 0 <= home < SUB_DICTIONARIES ==> !#[trigger] dictionary.full(home),
    {
        let mut subs: Vec<SubDictionary> = Vec::new();
        while subs.len() < SUB_DICTIONARIES
            invariant
                subs@.len() <= SUB_DICTIONARIES,
                forall|home: int|
                    0 <= home < subs@.len() ==> (#[trigger] subs@[home]).values@.len() == 0
                        && subs@[home].blocks@.len() == 0,
            decreases SUB_DICTIONARIES - subs@.len(),
        {
            subs.push(SubDictionary { values: Vec::new(), blocks: Vec::new() });
        }
        MetaDvDictionary { subs, owners: Vec::new() }
    }

    /// The value at a place is resolved by the address of the place.
    proof fn lemma_address(&self, home: int, place: int)
        requires
            self.wf(),
            0 <= home < SUB_DICTIONARIES,
            0 <= place < self.subs@[home].blocks@.len() * BLOCK_SIZE,
        ensures
            0 <= self.address(home, place) < NONEXISTING_ID_MARK,
            self.resolve(self.address(home, place) as usize) == (if place
                < self.subs@[home].values@.len() {
                Some(self.subs@[home].values@[place]@)
            } else {
                None
            }),
    {
        let ordinal = place / BLOCK_SIZE as int;
        let block = self.subs@[home].blocks@[ordinal];
        assert(block < self.owners@.len());
        assert(self.address(home, place) / BLOCK_SIZE as int == block);
        assert(self.address(home, place) % BLOCK_SIZE as int == place % (BLOCK_SIZE as int));
        let id = self.address(home, place) as usize;
        assert(self.owners@[block as int].1 == ordinal);
        assert(ordinal * BLOCK_SIZE + id % BLOCK_SIZE == place);
    }

    /// The id under which a value is stored, if it is.
    fn find(&self, home: usize, value: &AnyDataValue) -> (id: Option<usize>)
        requires
            self.wf(),
            home_of(value@) == Some(home as int),
            home < SUB_DICTIONARIES,
        ensures
            match id {
                Some(id) => self.resolve(id) == Some(value@),
                None => !self.knows(value@),
            },
    {
        let mut place: usize = 0;
        while place < self.subs[home].values.len()
            invariant
                self.wf(),
                home < SUB_DICTIONARIES,
                place <= self.subs@[home as int].values@.len(),
                forall|i: int|
                    0 <= i < place ==> (#[trigger] self.subs@[home as int].values@[i])@ != value@,
            decreases self.subs@[home as int].values@.len() - place,
        {
            if self.subs[home].values[place].same(value) {
                proof {
                    self.lemma_address(home as int, place as int);
                }
                return Some(
                    self.subs[home].blocks[place / BLOCK_SIZE] * BLOCK_SIZE + place % BLOCK_SIZE,
                );
            }
            place = place + 1;
        }
        None
    }

    /// Finds an address for one more value of a sub-dictionary.
    fn next_address(&mut self, home: usize) -> (id: Option<usize>)
        requires
            old(self).wf(),
            home < SUB_DICTIONARIES,
        ensures
            final(self).wf(),
            forall|id: usize| #[trigger] final(self).resolve(id) == old(self).resolve(id),
            id is None <==> old(self).full(home as int),
            id matches Some(id) ==> {
                &&& final(self).has_address(home as int)
                &&& id == final(self).address(
                    home as int,
                    final(self).subs@[home as int].values@.len() as int,
                )
                &&& id < NONEXISTING_ID_MARK
                &&& final(self).resolve(id) is None
            },
    {
        let length: usize = self.subs[home].values.len();
        let ordinal: usize = length / BLOCK_SIZE;
        if ordinal == self.subs[home].blocks.len() {
            let block: usize = self.owners.len();
            if block == BLOCK_LIMIT {
                return None;
            }
            self.owners.push((home, ordinal));
            self.subs[home].blocks.push(block);
        }
        proof {
            self.lemma_address(home as int, length as int);
        }
        Some(self.subs[home].blocks[ordinal] * BLOCK_SIZE + length % BLOCK_SIZE)
    }
}

impl MetaDvDictionary {
    /// Puts a value at the next address of its sub-dictionary.
    fn place_value(&mut self, home: usize, id: usize, value: AnyDataValue)
        requires
            old(self).wf(),
            home < SUB_DICTIONARIES,
            home_of(value@) == Some(home as int),
            old(self).has_address(home as int),
            id == old(self).address(home as int, old(self).subs@[home as int].values@.len() as int),
            home == NULLS ==> value@ == ValueView::Null(id),
        ensures
            final(self).wf(),
            forall|other: usize| #[trigger]
                final(self).resolve(other) == (if other == id {
                    Some(value@)
                } else {
                    old(self).resolve(other)
                }),
    {
        let ghost place = self.subs@[home as int].values@.len() as int;
        proof {
            self.lemma_address(home as int, place);
        }
        self.subs[home].values.push(value);
        assert forall|h: int, p: int|
            0 <= h < SUB_DICTIONARIES && 0 <= p < self.subs@[h].values@.len() && h
                == NULLS implies (#[trigger] self.subs@[h].values@[p])@ == ValueView::Null(
            self.address(h, p) as usize,
        ) by {
            assert(self.address(h, p) == old(self).address(h, p));
            if h != home || p < place {
                assert(old(self).subs@[h].values@[p]@ == ValueView::Null(
                    old(self).address(h, p) as usize,
                ));
            }
        }
        assert forall|h: int, p: int|
            0 <= h < SUB_DICTIONARIES && 0 <= p < self.subs@[h].values@.len() implies home_of(
            (#[trigger] self.subs@[h].values@[p])@,
        ) == Some(h) by {
            if h != home || p < place {
                assert(home_of(old(self).subs@[h].values@[p]@) == Some(h));
            }
        }
        assert(self.wf());
        proof {
            self.lemma_address(home as int, place);
        }
        assert forall|other: usize| #[trigger]
            self.resolve(other) == (if other == id {
                Some(value@)
            } else {
                old(self).resolve(other)
            }) by {
            if other != id {
                assert(self.place_of(other) == old(self).place_of(other)) by {
                    if self.place_of(other) == Some((home as int, place)) {
                        let block = (other / BLOCK_SIZE) as int;
                        let ordinal = self.owners@[block].1 as int;
                        assert(ordinal == place / BLOCK_SIZE as int);
                        assert(self.subs@[home as int].blocks@[ordinal] == block);
                    }
                }
            }
        }
    }

    /// Gives a value an id, unless it has one or gets none.
    ///
    /// Numbers that a storage value carries by itself get no id, nor does a null
    /// that this dictionary has not made.
    pub fn add_datavalue(&mut self, value: AnyDataValue) -> (result: AddResult)
        requires
            old(self).wf(),
        ensures
            final(self).wf(),
            match result {
                AddResult::Known(id) => {
                    &&& old(self).resolve(id) == Some(value@)
                    &&& forall|other: usize| #[trigger]
                        final(self).resolve(other) == old(self).resolve(other)
                },
                AddResult::Fresh(id) => {
                    &&& !old(self).knows(value@)
                    &&& home_of(value@) matches Some(home) && home != NULLS
                    &&& id < NONEXISTING_ID_MARK
                    &&& old(self).resolve(id) is None
                    &&& forall|other: usize| #[trigger]
                        final(self).resolve(other) == (if other == id {
                            Some(value@)
                        } else {
                            old(self).resolve(other)
                        })
                },
                AddResult::Rejected => {
                    &&& !old(self).knows(value@)
                    &&& match home_of(value@) {
                        None => true,
                        Some(home) => home == NULLS || old(self).full(home),
                    }
                    &&& forall|other: usize| #[trigger]
                        final(self).resolve(other) == old(self).resolve(other)
                },
            },
    {
        let home: usize = match find_home(&value) {
            Some(home) => home,
            None => {
                assert(!self.knows(value@));
                return AddResult::Rejected;
            },
        };
        if let Some(id) = self.find(home, &value) {
            return AddResult::Known(id);
        }
        if home == NULLS {
            return AddResult::Rejected;
        }
        match self.next_address(home) {
            Some(id) => {
                self.place_value(home, id, value);
                AddResult::Fresh(id)
            },
            None => AddResult::Rejected,
        }
    }

    /// Makes a new null, which gets an id of its own, as long as there are
    /// addresses left.
    pub fn fresh_null(&mut self) -> (null: Option<(AnyDataValue, usize)>)
        requires
            old(self).wf(),
        ensures
            final(self).wf(),
            match null {
                Some((value, id)) => {
                    &&& value@ == ValueView::Null(id)
                    &&& id < NONEXISTING_ID_MARK
                    &&& !old(self).knows(value@)
                    &&& old(self).resolve(id) is None
                    &&& forall|other: usize| #[trigger]
                        final(self).resolve(other) == (if other == id {
                            Some(value@)
                        } else {
                            old(self).resolve(other)
                        })
                },
                None => {
                    &&& old(self).full(NULLS as int)
                    &&& forall|other: usize| #[trigger]
                        final(self).resolve(other) == old(self).resolve(other)
                },
            },
    {
        match self.next_address(NULLS) {
            Some(id) => {
                let value = AnyDataValue::new_null(id);
                let copy = AnyDataValue::new_null(id);
                self.place_value(NULLS, id, copy);
                Some((value, id))
            },
            None => None,
        }
    }
}

/// A value that a storage value carries by itself has no id in any dictionary.
pub proof fn lemma_inline_values_have_no_id(dictionary: MetaDvDictionary, value: ValueView)
    requires
        dictionary.wf(),
        home_of(value) is None,
    ensures
        !dictionary.knows(value),
{
}

impl DvDict for MetaDvDictionary {
    closed spec fn resolve(&self, id: usize) -> Option<ValueView> {
        match self.place_of(id) {
            Some((home, place)) => Some(self.subs@[home].values@[place]@),
            None => None,
        }
    }

    fn id_to_datavalue(&self, id: usize) -> (value: Option<AnyDataValue>) {
        let block: usize = id / BLOCK_SIZE;
        if block >= self.owners.len() {
            return None;
        }
        let (home, ordinal): (usize, usize) = self.owners[block];
        if home >= self.subs.len() {
            return None;
        }
        let count: usize = self.subs[home].values.len();
        match ordinal.checked_mul(BLOCK_SIZE) {
            Some(start) => match start.checked_add(id % BLOCK_SIZE) {
                Some(place) => if place < count {
                    Some(self.subs[home].values[place].clone())
                } else {
                    None
                },
                None => None,
            },
            None => None,
        }
    }
}

/// Exactly the numbers that a storage value carries by itself need no id: floating
/// point numbers, and integers that fit in 64 bits with a sign. Nulls have a
/// sub-dictionary of their own.
pub proof fn lemma_which_values_need_ids(value: ValueView)
    ensures
        home_of(value) is None <==> value is Float || value is Double || value is Long,
        home_of(value) == Some(NULLS as int) <==> value is Null,
        home_of(value) matches Some(home) ==> 0 <= home < SUB_DICTIONARIES,
{
}

} // verus!
