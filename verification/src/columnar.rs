//! Columns: sequences of values of one storage type, as plain vectors or
//! run-length encoded.

use vstd::prelude::*;

verus! {

/// A single-precision number, by its bits.
#[derive(Clone, Copy, Debug, PartialEq, Eq, Structural)]
pub struct Float {
    /// The IEEE 754 representation.
    pub bits: u32,
}

/// A double-precision number, by its bits.
#[derive(Clone, Copy, Debug, PartialEq, Eq, Structural)]
pub struct Double {
    /// The IEEE 754 representation.
    pub bits: u64,
}

/// A value as tables store it.
#[derive(Clone, Copy, Debug, PartialEq, Eq, Structural)]
pub enum StorageValueT {
    /// A dictionary id that fits in 32 bits.
    Id32(u32),
    /// A dictionary id.
    Id64(u64),
    /// An integer.
    Int64(i64),
    /// A single-precision number.
    Float(Float),
    /// A double-precision number.
    Double(Double),
}

/// The two's complement representation of a number.
pub open spec fn signed_bits(number: i64) -> u64 {
    if number >= 0 {
        number as u64
    } else {
        (number + 0x1_0000_0000_0000_0000) as u64
    }
}

/// The number with the given two's complement representation.
pub open spec fn signed_of_bits(bits: u64) -> i64 {
    if bits <= i64::MAX {
        bits as i64
    } else {
        (bits - 0x1_0000_0000_0000_0000) as i64
    }
}

/// The two's complement representation of a number.
pub fn to_signed_bits(number: i64) -> (bits: u64)
    ensures
        bits == signed_bits(number),
        signed_of_bits(bits) == number,
{
    if number >= 0 {
        number as u64
    } else {
        (number as i128 + 0x1_0000_0000_0000_0000) as u64
    }
}

/// The number with the given two's complement representation.
pub fn from_signed_bits(bits: u64) -> (number: i64)
    ensures
        number == signed_of_bits(bits),
{
    if bits <= i64::MAX as u64 {
        bits as i64
    } else {
        (bits as i128 - 0x1_0000_0000_0000_0000) as i64
    }
}

/// Types whose values can form runs: sequences in which each value is the one
/// before it plus a step.
pub trait RunLengthEncodable: Copy + Sized {
    /// The representation that steps are added to.
    spec fn bits(self) -> u64;

    /// The value with the given representation.
    spec fn of_bits(bits: u64) -> Self;

    proof fn lemma_bits(self)
        ensures
            Self::of_bits(self.bits()) == self,
    ;

    /// The representation that steps are added to.
    fn to_run_bits(self) -> (bits: u64)
        ensures
            bits == self.bits(),
    ;

    /// The value with the given representation.
    fn from_run_bits(bits: u64) -> (value: Self)
        ensures
            value == Self::of_bits(bits),
    ;
}

impl RunLengthEncodable for u32 {
    open spec fn bits(self) -> u64 {
        self as u64
    }

    open spec fn of_bits(bits: u64) -> u32 {
        (bits % 0x1_0000_0000) as u32
    }

    proof fn lemma_bits(self) {
    }

    fn to_run_bits(self) -> u64 {
        self as u64
    }

    fn from_run_bits(bits: u64) -> u32 {
        (bits % 0x1_0000_0000) as u32
    }
}

impl RunLengthEncodable for u64 {
    open spec fn bits(self) -> u64 {
        self
    }

    open spec fn of_bits(bits: u64) -> u64 {
        bits
    }

    proof fn lemma_bits(self) {
    }

    fn to_run_bits(self) -> u64 {
        self
    }

    fn from_run_bits(bits: u64) -> u64 {
        bits
    }
}

impl RunLengthEncodable for i64 {
    open spec fn bits(self) -> u64 {
        signed_bits(self)
    }

    open spec fn of_bits(bits: u64) -> i64 {
        signed_of_bits(bits)
    }

    proof fn lemma_bits(self) {
    }

    fn to_run_bits(self) -> u64 {
        to_signed_bits(self)
    }

    fn from_run_bits(bits: u64) -> i64 {
        from_signed_bits(bits)
    }
}

impl RunLengthEncodable for usize {
    open spec fn bits(self) -> u64 {
        self as u64
    }

    open spec fn of_bits(bits: u64) -> usize {
        if bits <= usize::MAX {
            bits as usize
        } else {
            (bits % 0x1_0000_0000) as usize
        }
    }

    proof fn lemma_bits(self) {
    }

    fn to_run_bits(self) -> u64 {
        self as u64
    }

    fn from_run_bits(bits: u64) -> usize {
        if bits <= usize::MAX as u64 {
            bits as usize
        } else {
            (bits % 0x1_0000_0000) as usize
        }
    }
}

impl RunLengthEncodable for Float {
    open spec fn bits(self) -> u64 {
        self.bits as u64
    }

    open spec fn of_bits(bits: u64) -> Float {
        Float { bits: (bits % 0x1_0000_0000) as u32 }
    }

    proof fn lemma_bits(self) {
    }

    fn to_run_bits(self) -> u64 {
        self.bits as u64
    }

    fn from_run_bits(bits: u64) -> Float {
        Float { bits: (bits % 0x1_0000_0000) as u32 }
    }
}

impl RunLengthEncodable for Double {
    open spec fn bits(self) -> u64 {
        self.bits
    }

    open spec fn of_bits(bits: u64) -> Double {
        Double { bits }
    }

    proof fn lemma_bits(self) {
    }

    fn to_run_bits(self) -> u64 {
        self.bits
    }

    fn from_run_bits(bits: u64) -> Double {
        Double { bits }
    }
}

/// The value one step behind `value`.
pub open spec fn stepped<T: RunLengthEncodable>(value: T, step: u64) -> T {
    T::of_bits(((value.bits() + step) % 0x1_0000_0000_0000_0000) as u64)
}

/// The value `count` steps behind `first`.
pub open spec fn nth_of_run<T: RunLengthEncodable>(first: T, step: u64, count: nat) -> T
    decreases count,
{
    if count == 0 {
        first
    } else {
        stepped(nth_of_run(first, step, (count - 1) as nat), step)
    }
}

/// Moves one step behind `value`.
fn step_on<T: RunLengthEncodable>(value: T, step: u64) -> (next: T)
    ensures
        next == stepped(value, step),
{
    T::from_run_bits(value.to_run_bits().wrapping_add(step))
}

/// A run of values.
struct Run<T> {
    first: T,
    last: T,
    step: u64,
    length: usize,
}

impl<T: RunLengthEncodable> Run<T> {
    spec fn values(self) -> Seq<T> {
        Seq::new(self.length as nat, |k: int| nth_of_run(self.first, self.step, k as nat))
    }

    spec fn wf(self) -> bool {
        &&& self.length > 0
        &&& self.last == nth_of_run(self.first, self.step, (self.length - 1) as nat)
    }
}

/// The values of runs, one run behind the other.
spec fn run_values<T: RunLengthEncodable>(runs: Seq<Run<T>>) -> Seq<T>
    decreases runs.len(),
{
    if runs.len() == 0 {
        Seq::empty()
    } else {
        run_values(runs.drop_last()) + runs.last().values()
    }
}

/// A run-length encoded column.
pub struct ColumnRle<T> {
    runs: Vec<Run<T>>,
}

impl<T: RunLengthEncodable> View for ColumnRle<T> {
    type V = Seq<T>;

    closed spec fn view(&self) -> Seq<T> {
        run_values(self.runs@)
    }
}

impl<T: RunLengthEncodable> ColumnRle<T> {
    /// The values that the runs stand for.
    pub fn values(&self) -> (values: Vec<T>)
        ensures
            values@ == self@,
    {
        let mut values: Vec<T> = Vec::new();
        let mut index: usize = 0;
        while index < self.runs.len()
            invariant
                index <= self.runs@.len(),
                values@ == run_values(self.runs@.take(index as int)),
            decreases self.runs@.len() - index,
        {
            let run = &self.runs[index];
            let ghost before = values@;
            let mut value: T = run.first;
            let mut count: usize = 0;
            while count < run.length
                invariant
                    count <= run.length,
                    values@ =~= before + run.values().take(count as int),
                    value == nth_of_run(run.first, run.step, count as nat),
                decreases run.length - count,
            {
                values.push(value);
                value = step_on(value, run.step);
                count = count + 1;
            }
            proof {
                let now = self.runs@.take(index + 1);
                assert(now.drop_last() =~= self.runs@.take(index as int));
                assert(now.last() == *run);
                assert(run.values().take(count as int) =~= run.values());
            }
            index = index + 1;
        }
        assert(self.runs@.take(index as int) =~= self.runs@);
        values
    }
}

/// Builds a run-length encoded column value by value.
pub struct ColumnBuilderRle<T> {
    runs: Vec<Run<T>>,
}

impl<T: RunLengthEncodable> View for ColumnBuilderRle<T> {
    type V = Seq<T>;

    closed spec fn view(&self) -> Seq<T> {
        run_values(self.runs@)
    }
}

impl<T: RunLengthEncodable> ColumnBuilderRle<T> {
    pub closed spec fn wf(&self) -> bool {
        forall|i: int| 0 <= i < self.runs@.len() ==> (#[trigger] self.runs@[i]).wf()
    }

    /// A builder without values.
    pub fn new() -> (builder: Self)
        ensures
            builder.wf(),
            builder@ == Seq::<T>::empty(),
    {
        ColumnBuilderRle { runs: Vec::new() }
    }

    /// Appends a value: to the last run where it continues it, else as a run of
    /// its own.
    pub fn add(&mut self, value: T)
        requires
            old(self).wf(),
        ensures
            final(self).wf(),
            final(self)@ == old(self)@.push(value),
    {
        let ghost runs = self.runs@;
        match self.runs.pop() {
            Some(run) => {
                let first: T = run.first;
                let length: usize = run.length;
                let step: u64 = if length == 1 {
                    value.to_run_bits().wrapping_sub(first.to_run_bits())
                } else {
                    run.step
                };
                let next: T = step_on(run.last, step);
                if length < usize::MAX && next.to_run_bits() == value.to_run_bits() {
                    let extended = Run { first, last: value, step, length: length + 1 };
                    proof {
                        next.lemma_bits();
                        value.lemma_bits();
                        assert forall|k: nat| k < length implies #[trigger] nth_of_run(
                            first,
                            step,
                            k,
                        ) == nth_of_run(first, run.step, k) by {
                            if length == 1 {
                                assert(k == 0);
                            }
                        }
                        assert(nth_of_run(first, step, (length - 1) as nat) == run.last);
                        assert(nth_of_run(first, step, length as nat) == value);
                        assert(extended.values() =~= run.values().push(value));
                    }
                    self.runs.push(extended);
                    assert(self.runs@.drop_last() =~= runs.drop_last());
                } else {
                    self.runs.push(run);
                    self.runs.push(Run { first: value, last: value, step: 0, length: 1 });
                    assert(self.runs@.drop_last() =~= runs);
                    assert(self.runs@.last().values() =~= seq![value]);
                }
            },
            None => {
                self.runs.push(Run { first: value, last: value, step: 0, length: 1 });
                assert(self.runs@.drop_last() =~= runs);
                assert(self.runs@.last().values() =~= seq![value]);
            },
        }
        assert(self@ =~= old(self)@.push(value));
    }

    /// The column of the values that were added.
    pub fn finalize(self) -> (column: ColumnRle<T>)
        ensures
            column@ == self@,
    {
        ColumnRle { runs: self.runs }
    }
}

/// A column of either kind.
pub enum ColumnEnum<T> {
    /// A plain vector.
    ColumnVector(Vec<T>),
    /// A run-length encoded column.
    ColumnRle(ColumnRle<T>),
}

/// What a column holds, and in which form.
pub struct ColumnView<T> {
    pub rle: bool,
    pub values: Seq<T>,
}

impl<T: RunLengthEncodable> View for ColumnEnum<T> {
    type V = ColumnView<T>;

    open spec fn view(&self) -> ColumnView<T> {
        match *self {
            ColumnEnum::ColumnVector(values) => ColumnView { rle: false, values: values@ },
            ColumnEnum::ColumnRle(column) => ColumnView { rle: true, values: column@ },
        }
    }
}

impl<T: RunLengthEncodable> ColumnEnum<T> {
    /// A run-length encoded column with the given values.
    pub fn rle_from(values: Vec<T>) -> (column: Self)
        ensures
            column@ == (ColumnView { rle: true, values: values@ }),
    {
        let mut builder = ColumnBuilderRle::new();
        let mut index: usize = 0;
        while index < values.len()
            invariant
                index <= values@.len(),
                builder.wf(),
                builder@ == values@.take(index as int),
            decreases values@.len() - index,
        {
            builder.add(values[index]);
            assert(values@.take(index + 1) =~= values@.take(index as int).push(
                values@[index as int],
            ));
            index = index + 1;
        }
        assert(values@.take(index as int) =~= values@);
        ColumnEnum::ColumnRle(builder.finalize())
    }

    /// The values of this column.
    pub fn values(&self) -> (values: Vec<T>)
        ensures
            values@ == self@.values,
    {
        match self {
            ColumnEnum::ColumnVector(values) => {
                let mut copies: Vec<T> = Vec::new();
                let mut index: usize = 0;
                while index < values.len()
                    invariant
                        index <= values@.len(),
                        copies@ == values@.take(index as int),
                    decreases values@.len() - index,
                {
                    copies.push(values[index]);
                    assert(values@.take(index + 1) =~= values@.take(index as int).push(
                        values@[index as int],
                    ));
                    index = index + 1;
                }
                assert(values@.take(index as int) =~= values@);
                copies
            },
            ColumnEnum::ColumnRle(column) => column.values(),
        }
    }
}

} // verus!
