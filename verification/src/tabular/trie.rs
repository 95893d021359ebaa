//! Tables as tries: rows that start alike share their first values.

use vstd::prelude::*;

use crate::columnar::{ColumnEnum, ColumnView, Double, Float, RunLengthEncodable, StorageValueT};

pub mod storage;

verus! {

/// The values of one storage type in a layer of a trie.
///
/// The data column is cut into intervals, each of which holds the children of
/// one node of the layer above. Its lookup columns, one for each storage type of
/// that layer, give the interval of each node.
pub struct IntervalColumn<T> {
    /// The values.
    pub data: ColumnEnum<T>,
    /// Where each interval starts.
    pub interval_starts: ColumnEnum<usize>,
    /// For each storage type of the layer above, the interval of each node.
    pub lookups: [ColumnEnum<usize>; 5],
}

/// A layer of a trie: one column for each storage type.
pub struct IntervalColumnT {
    /// Ids that fit in 32 bits.
    pub id32: IntervalColumn<u32>,
    /// Ids.
    pub id64: IntervalColumn<u64>,
    /// Integers.
    pub int64: IntervalColumn<i64>,
    /// Single-precision numbers.
    pub float: IntervalColumn<Float>,
    /// Double-precision numbers.
    pub double: IntervalColumn<Double>,
}

/// A table. Its rows are the paths through its layers.
pub struct Trie {
    columns: Vec<IntervalColumnT>,
    empty_row: bool,
}

/// What an [IntervalColumn] holds.
#[verifier::ext_equal]
pub struct IntervalView<T> {
    pub data: ColumnView<T>,
    pub starts: ColumnView<usize>,
    pub lookups: Seq<ColumnView<usize>>,
}

/// What an [IntervalColumnT] holds.
#[verifier::ext_equal]
pub struct LayerView {
    pub id32: IntervalView<u32>,
    pub id64: IntervalView<u64>,
    pub int64: IntervalView<i64>,
    pub float: IntervalView<Float>,
    pub double: IntervalView<Double>,
}

/// What a [Trie] holds.
#[verifier::ext_equal]
pub struct TrieView {
    pub columns: Seq<LayerView>,
    pub empty_row: bool,
}

/// What a list of columns holds.
pub open spec fn columns_view(columns: Seq<ColumnEnum<usize>>) -> Seq<ColumnView<usize>> {
    Seq::new(columns.len(), |i: int| columns[i]@)
}

impl<T: RunLengthEncodable> View for IntervalColumn<T> {
    type V = IntervalView<T>;

    open spec fn view(&self) -> IntervalView<T> {
        IntervalView {
            data: self.data@,
            starts: self.interval_starts@,
            lookups: columns_view(self.lookups@),
        }
    }
}

impl View for IntervalColumnT {
    type V = LayerView;

    open spec fn view(&self) -> LayerView {
        LayerView {
            id32: self.id32@,
            id64: self.id64@,
            int64: self.int64@,
            float: self.float@,
            double: self.double@,
        }
    }
}

/// What a list of layers holds.
pub open spec fn layers_view(layers: Seq<IntervalColumnT>) -> Seq<LayerView> {
    Seq::new(layers.len(), |i: int| layers[i]@)
}

impl View for Trie {
    type V = TrieView;

    closed spec fn view(&self) -> TrieView {
        TrieView { columns: layers_view(self.columns@), empty_row: self.empty_row }
    }
}

impl Trie {
    /// A trie with the given layers. A trie without layers holds the empty row or
    /// nothing.
    pub fn new(columns: Vec<IntervalColumnT>, empty_row: bool) -> (trie: Self)
        ensures
            trie@ == (TrieView { columns: layers_view(columns@), empty_row }),
    {
        Trie { columns, empty_row }
    }

    /// The number of columns of this table.
    pub fn arity(&self) -> (arity: usize)
        ensures
            arity == self@.columns.len(),
    {
        self.columns.len()
    }
}

/// The number of storage types.
pub const STORAGE_TYPES: usize = 5;

/// The lookup value of nodes without children.
pub const NO_INTERVAL: usize = usize::MAX;

/// What a column of a layer holds, whatever its storage type.
#[verifier::ext_equal]
pub struct PlainView {
    pub data: Seq<StorageValueT>,
    pub starts: Seq<usize>,
    pub lookups: Seq<Seq<usize>>,
}

/// The values of lookup columns.
pub open spec fn lookup_values(lookups: Seq<ColumnView<usize>>) -> Seq<Seq<usize>> {
    Seq::new(lookups.len(), |i: int| lookups[i].values)
}

/// The column of a layer that holds the given storage type: ids that fit in 32
/// bits, ids, integers, single-precision and double-precision numbers.
pub open spec fn plain_column(layer: LayerView, kind: int) -> PlainView {
    if kind == 0 {
        PlainView {
            data: layer.id32.data.values.map_values(|value: u32| StorageValueT::Id32(value)),
            starts: layer.id32.starts.values,
            lookups: lookup_values(layer.id32.lookups),
        }
    } else if kind == 1 {
        PlainView {
            data: layer.id64.data.values.map_values(|value: u64| StorageValueT::Id64(value)),
            starts: layer.id64.starts.values,
            lookups: lookup_values(layer.id64.lookups),
        }
    } else if kind == 2 {
        PlainView {
            data: layer.int64.data.values.map_values(|value: i64| StorageValueT::Int64(value)),
            starts: layer.int64.starts.values,
            lookups: lookup_values(layer.int64.lookups),
        }
    } else if kind == 3 {
        PlainView {
            data: layer.float.data.values.map_values(|value: Float| StorageValueT::Float(value)),
            starts: layer.float.starts.values,
            lookups: lookup_values(layer.float.lookups),
        }
    } else {
        PlainView {
            data: layer.double.data.values.map_values(|value: Double| StorageValueT::Double(value)),
            starts: layer.double.starts.values,
            lookups: lookup_values(layer.double.lookups),
        }
    }
}

/// The columns of a layer, one for each storage type.
pub open spec fn plain_layer(layer: LayerView) -> Seq<PlainView> {
    Seq::new(STORAGE_TYPES as nat, |kind: int| plain_column(layer, kind))
}

/// The columns of layers.
pub open spec fn plain_layers(layers: Seq<LayerView>) -> Seq<Seq<PlainView>> {
    Seq::new(layers.len(), |i: int| plain_layer(layers[i]))
}

/// The children that the node `node` of storage type `parent` has in a column:
/// the interval that the lookup names, if it names one.
pub open spec fn children(column: PlainView, parent: int, node: int) -> (int, int) {
    let lookup = column.lookups[parent];
    if parent < column.lookups.len() && node < lookup.len() && lookup[node] != NO_INTERVAL
        && lookup[node] < column.starts.len() {
        let interval = lookup[node] as int;
        let end = if interval + 1 < column.starts.len() && column.starts[interval + 1]
            <= column.data.len() {
            column.starts[interval + 1] as int
        } else {
            column.data.len() as int
        };
        (column.starts[interval] as int, end)
    } else {
        (0, 0)
    }
}

/// The rows below the nodes from `low` up to `high` of a column, each cut off
/// above the layer of the column.
pub open spec fn rows_between(
    layers: Seq<Seq<PlainView>>,
    depth: nat,
    kind: int,
    low: int,
    high: int,
) -> Seq<Seq<StorageValueT>>
    decreases layers.len() - depth, 0nat, high - low,
{
    if low >= high || depth >= layers.len() {
        Seq::empty()
    } else {
        let value = layers[depth as int][kind].data[high - 1];
        let below = if depth + 1 == layers.len() {
            seq![Seq::<StorageValueT>::empty()]
        } else {
            child_rows(layers, depth + 1, kind, high - 1, STORAGE_TYPES as nat)
        };
        rows_between(layers, depth, kind, low, high - 1) + prefixed(seq![value], below)
    }
}

/// The rows below the children of a node, in the columns of the first `kinds`
/// storage types.
pub open spec fn child_rows(
    layers: Seq<Seq<PlainView>>,
    depth: nat,
    parent: int,
    node: int,
    kinds: nat,
) -> Seq<Seq<StorageValueT>>
    decreases layers.len() - depth, 1nat, kinds as int,
{
    if kinds == 0 || depth >= layers.len() {
        Seq::empty()
    } else {
        let (low, high) = children(layers[depth as int][kinds - 1], parent, node);
        child_rows(layers, depth, parent, node, (kinds - 1) as nat) + rows_between(
            layers,
            depth,
            kinds - 1,
            low,
            high,
        )
    }
}

/// The rows, each with the given values in front.
pub open spec fn prefixed(front: Seq<StorageValueT>, rows: Seq<Seq<StorageValueT>>) -> Seq<
    Seq<StorageValueT>,
> {
    Seq::new(rows.len(), |i: int| front + rows[i])
}

/// The rows below the first layer's columns of the first `kinds` storage types.
pub open spec fn top_rows(layers: Seq<Seq<PlainView>>, kinds: nat) -> Seq<Seq<StorageValueT>>
    decreases kinds,
{
    if kinds == 0 {
        Seq::empty()
    } else {
        top_rows(layers, (kinds - 1) as nat) + rows_between(
            layers,
            0,
            kinds - 1,
            0,
            layers[0][kinds - 1].data.len() as int,
        )
    }
}

/// The rows of a trie: the paths through its layers.
pub open spec fn rows_of(trie: TrieView) -> Seq<Seq<StorageValueT>> {
    if trie.columns.len() == 0 {
        if trie.empty_row {
            seq![Seq::empty()]
        } else {
            Seq::empty()
        }
    } else {
        top_rows(plain_layers(trie.columns), STORAGE_TYPES as nat)
    }
}

/// What a list of rows holds.
pub open spec fn rows_view(rows: Seq<Vec<StorageValueT>>) -> Seq<Seq<StorageValueT>> {
    Seq::new(rows.len(), |i: int| rows[i]@)
}

/// A column of a layer with all its values spelled out.
struct PlainColumn {
    data: Vec<StorageValueT>,
    starts: Vec<usize>,
    lookups: Vec<Vec<usize>>,
}

impl View for PlainColumn {
    type V = PlainView;

    closed spec fn view(&self) -> PlainView {
        PlainView {
            data: self.data@,
            starts: self.starts@,
            lookups: Seq::new(self.lookups@.len(), |i: int| self.lookups@[i]@),
        }
    }
}

spec fn layers_plain_view(layers: Seq<Vec<PlainColumn>>) -> Seq<Seq<PlainView>> {
    Seq::new(layers.len(), |i: int| Seq::new(layers[i]@.len(), |k: int| layers[i]@[k]@))
}

fn spell_out<T: RunLengthEncodable>(column: &IntervalColumn<T>, data: Vec<StorageValueT>) -> (plain:
    PlainColumn)
    ensures
        plain@.data == data@,
        plain@.starts == column@.starts.values,
        plain@.lookups == lookup_values(column@.lookups),
{
    let mut lookups: Vec<Vec<usize>> = Vec::new();
    let mut index: usize = 0;
    while index < STORAGE_TYPES
        invariant
            index <= STORAGE_TYPES,
            lookups@.len() == index,
            forall|i: int|
                0 <= i < index ==> (#[trigger] lookups@[i])@ == column.lookups@[i]@.values,
        decreases STORAGE_TYPES - index,
    {
        lookups.push(column.lookups[index].values());
        index = index + 1;
    }
    let plain = PlainColumn { data, starts: column.interval_starts.values(), lookups };
    assert(plain@.lookups =~= lookup_values(column@.lookups));
    plain
}

impl IntervalColumnT {
    fn plain(&self) -> (columns: Vec<PlainColumn>)
        ensures
            columns@.len() == STORAGE_TYPES,
            forall|k: int|
                0 <= k < STORAGE_TYPES ==> (#[trigger] columns@[k])@ == plain_column(self@, k),
    {
        let id32 = self.id32.data.values();
        let mut data32: Vec<StorageValueT> = Vec::new();
        let mut index: usize = 0;
        while index < id32.len()
            invariant
                index <= id32@.len(),
                data32@.len() == index,
                forall|i: int| 0 <= i < index ==> data32@[i] == StorageValueT::Id32(id32@[i]),
            decreases id32@.len() - index,
        {
            data32.push(StorageValueT::Id32(id32[index]));
            index = index + 1;
        }
        let id64 = self.id64.data.values();
        let mut data64: Vec<StorageValueT> = Vec::new();
        index = 0;
        while index < id64.len()
            invariant
                index <= id64@.len(),
                data64@.len() == index,
                forall|i: int| 0 <= i < index ==> data64@[i] == StorageValueT::Id64(id64@[i]),
            decreases id64@.len() - index,
        {
            data64.push(StorageValueT::Id64(id64[index]));
            index = index + 1;
        }
        let int64 = self.int64.data.values();
        let mut integers: Vec<StorageValueT> = Vec::new();
        index = 0;
        while index < int64.len()
            invariant
                index <= int64@.len(),
                integers@.len() == index,
                forall|i: int| 0 <= i < index ==> integers@[i] == StorageValueT::Int64(int64@[i]),
            decreases int64@.len() - index,
        {
            integers.push(StorageValueT::Int64(int64[index]));
            index = index + 1;
        }
        let float = self.float.data.values();
        let mut floats: Vec<StorageValueT> = Vec::new();
        index = 0;
        while index < float.len()
            invariant
                index <= float@.len(),
                floats@.len() == index,
                forall|i: int| 0 <= i < index ==> floats@[i] == StorageValueT::Float(float@[i]),
            decreases float@.len() - index,
        {
            floats.push(StorageValueT::Float(float[index]));
            index = index + 1;
        }
        let double = self.double.data.values();
        let mut doubles: Vec<StorageValueT> = Vec::new();
        index = 0;
        while index < double.len()
            invariant
                index <= double@.len(),
                doubles@.len() == index,
                forall|i: int| 0 <= i < index ==> doubles@[i] == StorageValueT::Double(double@[i]),
            decreases double@.len() - index,
        {
            doubles.push(StorageValueT::Double(double[index]));
            index = index + 1;
        }
        let mut columns: Vec<PlainColumn> = Vec::new();
        columns.push(spell_out(&self.id32, data32));
        columns.push(spell_out(&self.id64, data64));
        columns.push(spell_out(&self.int64, integers));
        columns.push(spell_out(&self.float, floats));
        columns.push(spell_out(&self.double, doubles));
        assert(columns@[0]@ =~= plain_column(self@, 0));
        assert(columns@[1]@ =~= plain_column(self@, 1));
        assert(columns@[2]@ =~= plain_column(self@, 2));
        assert(columns@[3]@ =~= plain_column(self@, 3));
        assert(columns@[4]@ =~= plain_column(self@, 4));
        columns
    }
}

impl PlainColumn {
    /// The children of a node.
    fn children_of(&self, parent: usize, node: usize) -> (range: (usize, usize))
        ensures
            (range.0 as int, range.1 as int) == children(self@, parent as int, node as int),
            range.1 <= self@.data.len(),
    {
        if parent >= self.lookups.len() || node >= self.lookups[parent].len() {
            return (0, 0);
        }
        let interval: usize = self.lookups[parent][node];
        if interval == NO_INTERVAL || interval >= self.starts.len() {
            return (0, 0);
        }
        let count: usize = self.data.len();
        if interval + 1 < self.starts.len() && self.starts[interval + 1] <= count {
            (self.starts[interval], self.starts[interval + 1])
        } else {
            (self.starts[interval], count)
        }
    }
}

proof fn lemma_prefixed(
    front: Seq<StorageValueT>,
    value: StorageValueT,
    first: Seq<Seq<StorageValueT>>,
    second: Seq<Seq<StorageValueT>>,
)
    ensures
        prefixed(front, first + second) == prefixed(front, first) + prefixed(front, second),
        prefixed(front, prefixed(seq![value], second)) == prefixed(front.push(value), second),
{
    assert(prefixed(front, first + second) =~= prefixed(front, first) + prefixed(front, second));
    assert forall|i: int| 0 <= i < second.len() implies #[trigger] prefixed(
        front,
        prefixed(seq![value], second),
    )[i] == prefixed(front.push(value), second)[i] by {
        assert(front + (seq![value] + second[i]) =~= front.push(value) + second[i]);
    }
    assert(prefixed(front, prefixed(seq![value], second)) =~= prefixed(front.push(value), second));
}

spec fn spelled_out(layers: Seq<Vec<PlainColumn>>) -> bool {
    forall|i: int| 0 <= i < layers.len() ==> (#[trigger] layers[i])@.len() == STORAGE_TYPES
}

fn copy_row(row: &Vec<StorageValueT>) -> (copy: Vec<StorageValueT>)
    ensures
        copy@ == row@,
{
    let mut copy: Vec<StorageValueT> = Vec::new();
    let mut index: usize = 0;
    while index < row.len()
        invariant
            index <= row@.len(),
            copy@ =~= row@.take(index as int),
        decreases row@.len() - index,
    {
        copy.push(row[index]);
        index = index + 1;
    }
    copy
}

/// Appends the rows below some nodes of a column.
fn collect_between(
    layers: &Vec<Vec<PlainColumn>>,
    depth: usize,
    kind: usize,
    range: (usize, usize),
    front: &Vec<StorageValueT>,
    out: &mut Vec<Vec<StorageValueT>>,
)
    requires
        spelled_out(layers@),
        depth < layers@.len(),
        kind < STORAGE_TYPES,
        range.1 <= layers@[depth as int]@[kind as int]@.data.len(),
    ensures
        rows_view(final(out)@) == rows_view(old(out)@) + prefixed(
            front@,
            rows_between(
                layers_plain_view(layers@),
                depth as nat,
                kind as int,
                range.0 as int,
                range.1 as int,
            ),
        ),
    decreases layers@.len() - depth, 0nat,
{
    let ghost views = layers_plain_view(layers@);
    let (low, high): (usize, usize) = range;
    let mut node: usize = low;
    assert(rows_view(out@) =~= rows_view(old(out)@) + prefixed(
        front@,
        rows_between(views, depth as nat, kind as int, low as int, low as int),
    ));
    while node < high
        invariant
            spelled_out(layers@),
            depth < layers@.len(),
            kind < STORAGE_TYPES,
            views == layers_plain_view(layers@),
            high <= layers@[depth as int]@[kind as int]@.data.len(),
            low <= node,
            low <= high ==> node <= high,
            low >= high ==> node == low,
            rows_view(out@) == rows_view(old(out)@) + prefixed(
                front@,
                rows_between(views, depth as nat, kind as int, low as int, node as int),
            ),
        decreases high - node,
    {
        let value: StorageValueT = layers[depth][kind].data[node];
        let mut row = copy_row(front);
        row.push(value);
        let ghost before = rows_view(out@);
        let ghost read = rows_between(views, depth as nat, kind as int, low as int, node as int);
        let ghost below = if depth + 1 == views.len() {
            seq![Seq::<StorageValueT>::empty()]
        } else {
            child_rows(views, (depth + 1) as nat, kind as int, node as int, STORAGE_TYPES as nat)
        };
        assert(value == views[depth as int][kind as int].data[node as int]);
        assert(rows_between(views, depth as nat, kind as int, low as int, node + 1) == read
            + prefixed(seq![value], below));
        proof {
            lemma_prefixed(front@, value, read, prefixed(seq![value], below));
            lemma_prefixed(front@, value, read, below);
        }
        if depth == layers.len() - 1 {
            let ghost done = out@;
            assert(prefixed(row@, below) =~= seq![row@]);
            out.push(row);
            assert(rows_view(out@) =~= rows_view(done).push(row@));
        } else {
            collect_children(layers, depth + 1, kind, node, &row, out);
        }
        node = node + 1;
        assert(rows_view(out@) =~= rows_view(old(out)@) + prefixed(
            front@,
            rows_between(views, depth as nat, kind as int, low as int, node as int),
        ));
    }
    assert(low >= high ==> rows_between(
        views,
        depth as nat,
        kind as int,
        low as int,
        high as int,
    ) == rows_between(views, depth as nat, kind as int, low as int, node as int));
}

/// Appends the rows below the children of a node.
fn collect_children(
    layers: &Vec<Vec<PlainColumn>>,
    depth: usize,
    parent: usize,
    node: usize,
    front: &Vec<StorageValueT>,
    out: &mut Vec<Vec<StorageValueT>>,
)
    requires
        spelled_out(layers@),
        depth < layers@.len(),
        parent < STORAGE_TYPES,
    ensures
        rows_view(final(out)@) == rows_view(old(out)@) + prefixed(
            front@,
            child_rows(
                layers_plain_view(layers@),
                depth as nat,
                parent as int,
                node as int,
                STORAGE_TYPES as nat,
            ),
        ),
    decreases layers@.len() - depth, 1nat,
{
    let ghost views = layers_plain_view(layers@);
    let mut kind: usize = 0;
    assert(rows_view(out@) =~= rows_view(old(out)@) + prefixed(
        front@,
        child_rows(views, depth as nat, parent as int, node as int, 0),
    ));
    while kind < STORAGE_TYPES
        invariant
            spelled_out(layers@),
            depth < layers@.len(),
            views == layers_plain_view(layers@),
            kind <= STORAGE_TYPES,
            rows_view(out@) == rows_view(old(out)@) + prefixed(
                front@,
                child_rows(views, depth as nat, parent as int, node as int, kind as nat),
            ),
        decreases STORAGE_TYPES - kind,
    {
        let range: (usize, usize) = layers[depth][kind].children_of(parent, node);
        let ghost read = child_rows(views, depth as nat, parent as int, node as int, kind as nat);
        let ghost more = rows_between(
            views,
            depth as nat,
            kind as int,
            range.0 as int,
            range.1 as int,
        );
        assert(views[depth as int][kind as int] == layers@[depth as int]@[kind as int]@);
        proof {
            lemma_prefixed(front@, StorageValueT::Id32(0), read, more);
        }
        collect_between(layers, depth, kind, range, front, out);
        kind = kind + 1;
        assert(rows_view(out@) =~= rows_view(old(out)@) + prefixed(
            front@,
            child_rows(views, depth as nat, parent as int, node as int, kind as nat),
        ));
    }
}

impl Trie {
    /// The rows of this table.
    pub fn rows(&self) -> (rows: Vec<Vec<StorageValueT>>)
        ensures
            rows_view(rows@) == rows_of(self@),
    {
        let mut rows: Vec<Vec<StorageValueT>> = Vec::new();
        let empty: Vec<StorageValueT> = Vec::new();
        if self.columns.len() == 0 {
            if self.empty_row {
                rows.push(empty);
            }
            assert(rows_view(rows@) =~= rows_of(self@));
            return rows;
        }
        let mut layers: Vec<Vec<PlainColumn>> = Vec::new();
        let mut index: usize = 0;
        while index < self.columns.len()
            invariant
                index <= self.columns@.len(),
                layers@.len() == index,
                forall|i: int| 0 <= i < index ==> (#[trigger] layers@[i])@.len() == STORAGE_TYPES,
                forall|i: int, k: int|
                    0 <= i < index && 0 <= k < STORAGE_TYPES ==> (#[trigger] layers@[i]@[k])@
                        == plain_column(self.columns@[i]@, k),
            decreases self.columns@.len() - index,
        {
            layers.push(self.columns[index].plain());
            index = index + 1;
        }
        let ghost views = layers_plain_view(layers@);
        assert forall|i: int| 0 <= i < views.len() implies #[trigger] views[i] == plain_layers(
            self@.columns,
        )[i] by {
            assert(layers@[i]@.len() == STORAGE_TYPES);
            assert(views[i] =~= plain_layer(self@.columns[i]));
        }
        assert(views =~= plain_layers(self@.columns));
        let mut kind: usize = 0;
        assert(rows_view(rows@) =~= top_rows(views, 0));
        while kind < STORAGE_TYPES
            invariant
                spelled_out(layers@),
                0 < layers@.len(),
                views == layers_plain_view(layers@),
                kind <= STORAGE_TYPES,
                empty@ == Seq::<StorageValueT>::empty(),
                rows_view(rows@) == top_rows(views, kind as nat),
            decreases STORAGE_TYPES - kind,
        {
            assert(layers@[0]@.len() == STORAGE_TYPES);
            let count: usize = layers[0][kind].data.len();
            assert(views[0][kind as int] == layers@[0]@[kind as int]@);
            let ghost more = rows_between(views, 0, kind as int, 0, count as int);
            collect_between(&layers, 0, kind, (0, count), &empty, &mut rows);
            proof {
                assert forall|i: int| 0 <= i < more.len() implies #[trigger] prefixed(
                    empty@,
                    more,
                )[i] == more[i] by {
                    assert(empty@ + more[i] =~= more[i]);
                }
                assert(prefixed(empty@, more) =~= more);
            }
            kind = kind + 1;
        }
        rows
    }

    /// The number of rows of this table.
    pub fn num_rows(&self) -> (count: usize)
        ensures
            count == rows_of(self@).len(),
    {
        let rows = self.rows();
        assert(rows_view(rows@).len() == rows@.len());
        rows.len()
    }
}

/// The columns of a layer, whatever their storage types, hold its values, the starts
/// of its intervals and its lookups as they are.
pub proof fn lemma_plain_columns(layer: LayerView, i: int)
    ensures
        plain_layer(layer).len() == 5,
        plain_layer(layer)[0].data.len() == layer.id32.data.values.len(),
        plain_layer(layer)[1].data.len() == layer.id64.data.values.len(),
        plain_layer(layer)[2].data.len() == layer.int64.data.values.len(),
        plain_layer(layer)[3].data.len() == layer.float.data.values.len(),
        plain_layer(layer)[4].data.len() == layer.double.data.values.len(),
        0 <= i < layer.id32.data.values.len() ==> plain_layer(layer)[0].data[i]
            == StorageValueT::Id32(layer.id32.data.values[i]),
        0 <= i < layer.id64.data.values.len() ==> plain_layer(layer)[1].data[i]
            == StorageValueT::Id64(layer.id64.data.values[i]),
        0 <= i < layer.int64.data.values.len() ==> plain_layer(layer)[2].data[i]
            == StorageValueT::Int64(layer.int64.data.values[i]),
        0 <= i < layer.float.data.values.len() ==> plain_layer(layer)[3].data[i]
            == StorageValueT::Float(layer.float.data.values[i]),
        0 <= i < layer.double.data.values.len() ==> plain_layer(layer)[4].data[i]
            == StorageValueT::Double(layer.double.data.values[i]),
        plain_layer(layer)[0].starts == layer.id32.starts.values,
        plain_layer(layer)[1].starts == layer.id64.starts.values,
        plain_layer(layer)[2].starts == layer.int64.starts.values,
        plain_layer(layer)[3].starts == layer.float.starts.values,
        plain_layer(layer)[4].starts == layer.double.starts.values,
        0 <= i < layer.id32.lookups.len() ==> plain_layer(layer)[0].lookups[i]
            == layer.id32.lookups[i].values,
        0 <= i < layer.id64.lookups.len() ==> plain_layer(layer)[1].lookups[i]
            == layer.id64.lookups[i].values,
        0 <= i < layer.int64.lookups.len() ==> plain_layer(layer)[2].lookups[i]
            == layer.int64.lookups[i].values,
        0 <= i < layer.float.lookups.len() ==> plain_layer(layer)[3].lookups[i]
            == layer.float.lookups[i].values,
        0 <= i < layer.double.lookups.len() ==> plain_layer(layer)[4].lookups[i]
            == layer.double.lookups[i].values,
{
}

/// Whether `child` is a child that the node `node` of storage type `parent` has in a
/// column: it lies in the interval that the lookup of the node names, which ends
/// where the next one starts or where the column ends.
pub open spec fn leads_to(column: PlainView, parent: int, node: int, child: int) -> bool {
    &&& parent < column.lookups.len()
    &&& node < column.lookups[parent].len()
    &&& column.lookups[parent][node] != usize::MAX
    &&& column.lookups[parent][node] < column.starts.len()
    &&& column.starts[column.lookups[parent][node] as int] <= child < column.data.len()
    &&& column.lookups[parent][node] + 1 < column.starts.len()
        && column.starts[column.lookups[parent][node] + 1] <= column.data.len() ==> child
        < column.starts[column.lookups[parent][node] + 1]
}

/// Whether a row is read off a path that starts at a node: its first value is that of
/// the node, and the others are read off a path that starts at a child of the node,
/// down to the last layer.
pub open spec fn on_path(
    layers: Seq<Seq<PlainView>>,
    depth: nat,
    kind: int,
    node: int,
    row: Seq<StorageValueT>,
) -> bool
    decreases layers.len() - depth,
{
    &&& depth < layers.len()
    &&& row.len() == layers.len() - depth
    &&& 0 <= node < layers[depth as int][kind].data.len()
    &&& row[0] == layers[depth as int][kind].data[node]
    &&& depth + 1 < layers.len() ==> exists|next: int, child: int|
        0 <= next < 5 && #[trigger] leads_to(layers[(depth + 1) as int][next], kind, node, child)
            && on_path(layers, depth + 1, next, child, row.skip(1))
}

proof fn lemma_prefixed_members(
    value: StorageValueT,
    rows: Seq<Seq<StorageValueT>>,
    row: Seq<StorageValueT>,
)
    ensures
        prefixed(seq![value], rows).contains(row) <==> row.len() > 0 && row[0] == value
            && rows.contains(row.skip(1)),
{
    let all = prefixed(seq![value], rows);
    if all.contains(row) {
        let i = choose|i: int| 0 <= i < all.len() && all[i] == row;
        assert(row == seq![value] + rows[i]);
        assert(row.skip(1) =~= rows[i]);
        assert(rows.contains(row.skip(1)));
    }
    if row.len() > 0 && row[0] == value && rows.contains(row.skip(1)) {
        let i = choose|i: int| 0 <= i < rows.len() && rows[i] == row.skip(1);
        assert(all[i] =~= row);
    }
}

proof fn lemma_sum_members(
    left: Seq<Seq<StorageValueT>>,
    right: Seq<Seq<StorageValueT>>,
    row: Seq<StorageValueT>,
)
    ensures
        (left + right).contains(row) <==> left.contains(row) || right.contains(row),
{
    let sum = left + right;
    if sum.contains(row) {
        let i = choose|i: int| 0 <= i < sum.len() && sum[i] == row;
        if i < left.len() {
            assert(left[i] == row);
        } else {
            assert(right[i - left.len()] == row);
        }
    }
    if left.contains(row) {
        let i = choose|i: int| 0 <= i < left.len() && left[i] == row;
        assert(sum[i] == row);
    }
    if right.contains(row) {
        let i = choose|i: int| 0 <= i < right.len() && right[i] == row;
        assert(sum[i + left.len()] == row);
    }
}

proof fn lemma_children(column: PlainView, parent: int, node: int, child: int)
    requires
        0 <= parent,
        0 <= node,
    ensures
        leads_to(column, parent, node, child) <==> children(column, parent, node).0 <= child
            < children(column, parent, node).1,
        0 <= children(column, parent, node).0,
        children(column, parent, node).1 <= column.data.len(),
{
}

proof fn lemma_rows_between_members(
    layers: Seq<Seq<PlainView>>,
    depth: nat,
    kind: int,
    low: int,
    high: int,
    row: Seq<StorageValueT>,
)
    requires
        depth < layers.len(),
        0 <= kind < STORAGE_TYPES,
        0 <= low,
        high <= layers[depth as int][kind].data.len(),
    ensures
        rows_between(layers, depth, kind, low, high).contains(row) <==> exists|node: int|
            low <= node < high && #[trigger] on_path(layers, depth, kind, node, row),
    decreases layers.len() - depth, 0nat, high - low,
{
    let all = rows_between(layers, depth, kind, low, high);
    if low < high {
        let last = high - 1;
        let value = layers[depth as int][kind].data[last];
        let below = if depth + 1 == layers.len() {
            seq![Seq::<StorageValueT>::empty()]
        } else {
            child_rows(layers, depth + 1, kind, last, STORAGE_TYPES as nat)
        };
        lemma_rows_between_members(layers, depth, kind, low, last, row);
        lemma_sum_members(
            rows_between(layers, depth, kind, low, last),
            prefixed(seq![value], below),
            row,
        );
        lemma_prefixed_members(value, below, row);
        assert(prefixed(seq![value], below).contains(row) <==> on_path(
            layers,
            depth,
            kind,
            last,
            row,
        )) by {
            if depth + 1 == layers.len() {
                if row.len() > 0 && below.contains(row.skip(1)) {
                    assert(row.skip(1).len() == 0);
                }
                if row.len() == 1 {
                    assert(below[0] =~= row.skip(1));
                }
            } else {
                lemma_child_members(
                    layers,
                    depth + 1,
                    kind,
                    last,
                    STORAGE_TYPES as nat,
                    row.skip(1),
                );
                if row.len() > 0 && below.contains(row.skip(1)) {
                    let (next, child) = choose|next: int, child: int|
                        0 <= next < STORAGE_TYPES && #[trigger] leads_to(
                            layers[(depth + 1) as int][next],
                            kind,
                            last,
                            child,
                        ) && on_path(layers, depth + 1, next, child, row.skip(1));
                    assert(row.skip(1).len() == layers.len() - (depth + 1));
                }
            }
        }
        if exists|node: int| low <= node < high && #[trigger] on_path(
            layers,
            depth,
            kind,
            node,
            row,
        ) {
            let node = choose|node: int| low <= node < high && #[trigger] on_path(
                layers,
                depth,
                kind,
                node,
                row,
            );
            if node < last {
                assert(rows_between(layers, depth, kind, low, last).contains(row));
            }
        }
    }
}

proof fn lemma_child_members(
    layers: Seq<Seq<PlainView>>,
    depth: nat,
    parent: int,
    node: int,
    kinds: nat,
    row: Seq<StorageValueT>,
)
    requires
        depth < layers.len(),
        kinds <= STORAGE_TYPES,
        0 <= parent,
        0 <= node,
    ensures
        child_rows(layers, depth, parent, node, kinds).contains(row) <==> exists|
            next: int,
            child: int,
        |
            0 <= next < kinds && #[trigger] leads_to(layers[depth as int][next], parent, node, child)
                && on_path(layers, depth, next, child, row),
    decreases layers.len() - depth, 1nat, kinds as int,
{
    if kinds > 0 {
        let last = kinds - 1;
        let column = layers[depth as int][last];
        let (low, high) = children(column, parent, node);
        let front = child_rows(layers, depth, parent, node, (kinds - 1) as nat);
        let back = rows_between(layers, depth, last, low, high);
        lemma_children(column, parent, node, 0);
        lemma_child_members(layers, depth, parent, node, (kinds - 1) as nat, row);
        lemma_rows_between_members(layers, depth, last, low, high, row);
        lemma_sum_members(front, back, row);
        if back.contains(row) {
            let child = choose|child: int|
                low <= child < high && #[trigger] on_path(layers, depth, last, child, row);
            lemma_children(column, parent, node, child);
            assert(leads_to(column, parent, node, child));
        }
        if exists|next: int, child: int|
            0 <= next < kinds && #[trigger] leads_to(layers[depth as int][next], parent, node, child)
                && on_path(layers, depth, next, child, row) {
            let (next, child) = choose|next: int, child: int|
                0 <= next < kinds && #[trigger] leads_to(layers[depth as int][next], parent, node, child)
                    && on_path(layers, depth, next, child, row);
            if next == last {
                lemma_children(column, parent, node, child);
                assert(back.contains(row));
            } else {
                assert(front.contains(row));
            }
        }
    }
}

proof fn lemma_top_members(layers: Seq<Seq<PlainView>>, kinds: nat, row: Seq<StorageValueT>)
    requires
        layers.len() > 0,
        kinds <= STORAGE_TYPES,
    ensures
        top_rows(layers, kinds).contains(row) <==> exists|kind: int, node: int|
            0 <= kind < kinds && #[trigger] on_path(layers, 0, kind, node, row),
    decreases kinds,
{
    if kinds > 0 {
        let last = kinds - 1;
        let front = top_rows(layers, (kinds - 1) as nat);
        let count = layers[0][last].data.len() as int;
        let back = rows_between(layers, 0, last, 0, count);
        lemma_top_members(layers, (kinds - 1) as nat, row);
        lemma_rows_between_members(layers, 0, last, 0, count, row);
        lemma_sum_members(front, back, row);
        if back.contains(row) {
            let node = choose|node: int|
                0 <= node < count && #[trigger] on_path(layers, 0, last, node, row);
            assert(on_path(layers, 0, last, node, row));
        }
        if exists|kind: int, node: int|
            0 <= kind < kinds && #[trigger] on_path(layers, 0, kind, node, row) {
            let (kind, node) = choose|kind: int, node: int|
                0 <= kind < kinds && #[trigger] on_path(layers, 0, kind, node, row);
            if kind == last {
                assert(back.contains(row));
            } else {
                assert(front.contains(row));
            }
        }
    }
}

/// The rows of a table are exactly those that are read off its paths, from any node
/// of the first layer down to the last one. A table without columns holds the empty
/// row or nothing.
pub proof fn lemma_rows_are_paths(trie: TrieView, row: Seq<StorageValueT>)
    ensures
        trie.columns.len() > 0 ==> (rows_of(trie).contains(row) <==> exists|
            kind: int,
            node: int,
        |
            0 <= kind < 5 && #[trigger] on_path(plain_layers(trie.columns), 0, kind, node, row)),
        trie.columns.len() == 0 ==> (rows_of(trie).contains(row) <==> trie.empty_row && row.len()
            == 0),
        trie.columns.len() == 0 ==> rows_of(trie).len() <= 1,
        rows_of(trie).contains(row) ==> row.len() == trie.columns.len(),
{
    if trie.columns.len() > 0 {
        lemma_top_members(plain_layers(trie.columns), STORAGE_TYPES as nat, row);
    } else if trie.empty_row {
        assert(rows_of(trie)[0] =~= Seq::<StorageValueT>::empty());
        if row.len() == 0 {
            assert(row =~= Seq::<StorageValueT>::empty());
        }
    }
}

/// A table with one column has one row for each value, in the order of the storage
/// types and of the values.
pub proof fn lemma_single_column(trie: TrieView)
    requires
        trie.columns.len() == 1,
    ensures
        rows_of(trie).len() == trie.columns[0].id32.data.values.len()
            + trie.columns[0].id64.data.values.len() + trie.columns[0].int64.data.values.len()
            + trie.columns[0].float.data.values.len() + trie.columns[0].double.data.values.len(),
        forall|i: int|
            0 <= i < trie.columns[0].id32.data.values.len() ==> #[trigger] rows_of(trie)[i]
                == seq![StorageValueT::Id32(trie.columns[0].id32.data.values[i])],
{
    let layers = plain_layers(trie.columns);
    let layer = plain_layer(trie.columns[0]);
    assert(layers[0] == layer);
    reveal_with_fuel(top_rows, 6);
    lemma_last_layer(layers, 0, layer[0].data.len() as int);
    lemma_last_layer(layers, 1, layer[1].data.len() as int);
    lemma_last_layer(layers, 2, layer[2].data.len() as int);
    lemma_last_layer(layers, 3, layer[3].data.len() as int);
    lemma_last_layer(layers, 4, layer[4].data.len() as int);
    let first = rows_between(layers, 0, 0, 0, layer[0].data.len() as int);
    assert forall|i: int| 0 <= i < trie.columns[0].id32.data.values.len() implies #[trigger] rows_of(
        trie,
    )[i] == seq![StorageValueT::Id32(trie.columns[0].id32.data.values[i])] by {
        assert(rows_of(trie)[i] == first[i]);
    }
}

proof fn lemma_last_layer(layers: Seq<Seq<PlainView>>, kind: int, high: int)
    requires
        layers.len() == 1,
        0 <= high,
    ensures
        rows_between(layers, 0, kind, 0, high).len() == high,
        forall|i: int|
            0 <= i < high ==> #[trigger] rows_between(layers, 0, kind, 0, high)[i]
                == seq![layers[0][kind].data[i]],
    decreases high,
{
    if high > 0 {
        lemma_last_layer(layers, kind, high - 1);
        let value = layers[0][kind].data[high - 1];
        let below = seq![Seq::<StorageValueT>::empty()];
        assert(prefixed(seq![value], below)[0] =~= seq![value]);
    }
}

/// Whether a value occurs only once among the children of a node, and only once in
/// the first layer.
pub open spec fn siblings_differ(layers: Seq<Seq<PlainView>>) -> bool {
    &&& forall|depth: int, kind: int, parent: int, node: int, left: int, right: int|
        0 <= depth < layers.len() && 0 <= kind < 5 && 0 <= parent && 0 <= node && left != right
            && #[trigger] leads_to(layers[depth][kind], parent, node, left) && #[trigger] leads_to(
            layers[depth][kind],
            parent,
            node,
            right,
        ) ==> layers[depth][kind].data[left] != layers[depth][kind].data[right]
    &&& forall|kind: int|
        0 <= kind < 5 && 0 < layers.len() ==> (#[trigger] layers[0][kind]).data.no_duplicates()
}

/// Whether columns of different storage types hold no common value.
spec fn types_differ(layers: Seq<Seq<PlainView>>) -> bool {
    forall|depth: int, one: int, other: int, left: int, right: int|
        0 <= depth < layers.len() && 0 <= one < other < STORAGE_TYPES && 0 <= left
            < layers[depth][one].data.len() && 0 <= right < layers[depth][other].data.len()
            ==> #[trigger] layers[depth][one].data[left]
            != #[trigger] layers[depth][other].data[right]
}

proof fn lemma_types_differ(columns: Seq<LayerView>)
    ensures
        types_differ(plain_layers(columns)),
{
}

proof fn lemma_prefixed_distinct(value: StorageValueT, rows: Seq<Seq<StorageValueT>>)
    requires
        rows.no_duplicates(),
    ensures
        prefixed(seq![value], rows).no_duplicates(),
{
    let all = prefixed(seq![value], rows);
    assert forall|i: int, j: int| 0 <= i < all.len() && 0 <= j < all.len() && i != j implies all[i]
        != all[j] by {
        if all[i] == all[j] {
            assert(all[i].skip(1) =~= rows[i]);
            assert(all[j].skip(1) =~= rows[j]);
        }
    }
}

proof fn lemma_sum_distinct(left: Seq<Seq<StorageValueT>>, right: Seq<Seq<StorageValueT>>)
    requires
        left.no_duplicates(),
        right.no_duplicates(),
        forall|row: Seq<StorageValueT>|
            !(#[trigger] left.contains(row) && #[trigger] right.contains(row)),
    ensures
        (left + right).no_duplicates(),
{
    let sum = left + right;
    assert forall|i: int, j: int| 0 <= i < j < sum.len() implies sum[i] != sum[j] by {
        if i < left.len() && j >= left.len() {
            assert(left.contains(left[i]));
            assert(right.contains(right[j - left.len()]));
            assert(sum[j] == right[j - left.len()]);
        }
    }
}

proof fn lemma_rows_between_distinct(
    layers: Seq<Seq<PlainView>>,
    depth: nat,
    kind: int,
    low: int,
    high: int,
)
    requires
        depth < layers.len(),
        0 <= kind < STORAGE_TYPES,
        0 <= low,
        high <= layers[depth as int][kind].data.len(),
        siblings_differ(layers),
        types_differ(layers),
        forall|left: int, right: int|
            low <= left < right < high ==> #[trigger] layers[depth as int][kind].data[left]
                != #[trigger] layers[depth as int][kind].data[right],
    ensures
        rows_between(layers, depth, kind, low, high).no_duplicates(),
    decreases layers.len() - depth, 0nat, high - low,
{
    if low < high {
        let last = high - 1;
        let value = layers[depth as int][kind].data[last];
        let below = if depth + 1 == layers.len() {
            seq![Seq::<StorageValueT>::empty()]
        } else {
            child_rows(layers, depth + 1, kind, last, STORAGE_TYPES as nat)
        };
        let front = rows_between(layers, depth, kind, low, last);
        lemma_rows_between_distinct(layers, depth, kind, low, last);
        if depth + 1 < layers.len() {
            lemma_child_distinct(layers, depth + 1, kind, last, STORAGE_TYPES as nat);
        }
        lemma_prefixed_distinct(value, below);
        assert forall|row: Seq<StorageValueT>|
            !(#[trigger] front.contains(row) && #[trigger] prefixed(seq![value], below).contains(
                row,
            )) by {
            lemma_rows_between_members(layers, depth, kind, low, last, row);
            lemma_prefixed_members(value, below, row);
            if front.contains(row) {
                let node = choose|node: int|
                    low <= node < last && #[trigger] on_path(layers, depth, kind, node, row);
                assert(row[0] == layers[depth as int][kind].data[node]);
            }
        }
        lemma_sum_distinct(front, prefixed(seq![value], below));
    }
}

proof fn lemma_child_distinct(
    layers: Seq<Seq<PlainView>>,
    depth: nat,
    parent: int,
    node: int,
    kinds: nat,
)
    requires
        depth < layers.len(),
        kinds <= STORAGE_TYPES,
        0 <= parent,
        0 <= node,
        siblings_differ(layers),
        types_differ(layers),
    ensures
        child_rows(layers, depth, parent, node, kinds).no_duplicates(),
    decreases layers.len() - depth, 1nat, kinds as int,
{
    if kinds > 0 {
        let last = kinds - 1;
        let column = layers[depth as int][last];
        let (low, high) = children(column, parent, node);
        let front = child_rows(layers, depth, parent, node, (kinds - 1) as nat);
        let back = rows_between(layers, depth, last, low, high);
        lemma_children(column, parent, node, 0);
        lemma_child_distinct(layers, depth, parent, node, (kinds - 1) as nat);
        assert forall|left: int, right: int| low <= left < right < high implies #[trigger] layers[depth as int][last].data[left]
            != #[trigger] layers[depth as int][last].data[right] by {
            lemma_children(column, parent, node, left);
            lemma_children(column, parent, node, right);
            assert(leads_to(layers[depth as int][last], parent, node, left));
            assert(leads_to(layers[depth as int][last], parent, node, right));
        }
        lemma_rows_between_distinct(layers, depth, last, low, high);
        assert forall|row: Seq<StorageValueT>|
            !(#[trigger] front.contains(row) && #[trigger] back.contains(row)) by {
            lemma_child_members(layers, depth, parent, node, (kinds - 1) as nat, row);
            lemma_rows_between_members(layers, depth, last, low, high, row);
            if front.contains(row) && back.contains(row) {
                let (next, left) = choose|next: int, child: int|
                    0 <= next < kinds - 1 && #[trigger] leads_to(
                        layers[depth as int][next],
                        parent,
                        node,
                        child,
                    ) && on_path(layers, depth, next, child, row);
                let right = choose|child: int|
                    low <= child < high && #[trigger] on_path(layers, depth, last, child, row);
                assert(layers[depth as int][next].data[left]
                    != layers[depth as int][last].data[right]);
            }
        }
        lemma_sum_distinct(front, back);
    }
}

proof fn lemma_top_distinct(layers: Seq<Seq<PlainView>>, kinds: nat)
    requires
        layers.len() > 0,
        kinds <= STORAGE_TYPES,
        siblings_differ(layers),
        types_differ(layers),
    ensures
        top_rows(layers, kinds).no_duplicates(),
    decreases kinds,
{
    if kinds > 0 {
        let last = kinds - 1;
        let front = top_rows(layers, (kinds - 1) as nat);
        let count = layers[0][last].data.len() as int;
        let back = rows_between(layers, 0, last, 0, count);
        lemma_top_distinct(layers, (kinds - 1) as nat);
        assert(layers[0][last].data.no_duplicates());
        lemma_rows_between_distinct(layers, 0, last, 0, count);
        assert forall|row: Seq<StorageValueT>|
            !(#[trigger] front.contains(row) && #[trigger] back.contains(row)) by {
            lemma_top_members(layers, (kinds - 1) as nat, row);
            lemma_rows_between_members(layers, 0, last, 0, count, row);
            if front.contains(row) && back.contains(row) {
                let (kind, left) = choose|kind: int, node: int|
                    0 <= kind < kinds - 1 && #[trigger] on_path(layers, 0, kind, node, row);
                let right = choose|node: int|
                    0 <= node < count && #[trigger] on_path(layers, 0, last, node, row);
                assert(layers[0][kind].data[left] != layers[0][last].data[right]);
            }
        }
        lemma_sum_distinct(front, back);
    }
}

/// Where a value occurs only once among siblings, no row comes twice.
pub proof fn lemma_rows_come_once(trie: TrieView)
    requires
        siblings_differ(plain_layers(trie.columns)),
    ensures
        rows_of(trie).no_duplicates(),
{
    lemma_types_differ(trie.columns);
    if trie.columns.len() > 0 {
        lemma_top_distinct(plain_layers(trie.columns), STORAGE_TYPES as nat);
    }
}

} // verus!
