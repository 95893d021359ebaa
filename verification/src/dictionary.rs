//! Dictionaries, which give data values the ids that tables store.

use vstd::prelude::*;

use crate::datavalues::{optional_view, AnyDataValue, ValueView};

pub mod encoding;
pub mod meta_dv_dict;
pub mod storage;

verus! {

/// A dictionary: ids on one side, data values on the other.
pub trait DvDict {
    /// The value that an id stands for, if it stands for one.
    spec fn resolve(&self, id: usize) -> Option<ValueView>;

    /// The value that an id stands for, or `None` for gaps in the id space.
    fn id_to_datavalue(&self, id: usize) -> (value: Option<AnyDataValue>)
        ensures
            optional_view(value) == self.resolve(id),
    ;
}

} // verus!
