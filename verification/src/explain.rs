//! Sharded explanation across worker processes.
//!
//! A worker is told a predicate and a contiguous range of its rows and writes one
//! trace document. The controller re-executes the current program once per range,
//! waits for all of them, and accepts the result only where every one succeeded.

use vstd::prelude::*;
use vstd::string::*;

use crate::text::{
    decimal, decimal_text, decimal_value, is_digits, lemma_decimal_length,
    lemma_decimal_round_trip, lemma_zero_padding, pad_front, pow10, reads_at,
    zero_padded,
};

verus! {

/// How many ranges some rows are split into.
pub open spec fn shard_count(total: nat, shards: nat) -> nat {
    if total == 0 || shards == 0 {
        0
    } else if shards < total {
        shards
    } else {
        total
    }
}

/// Where the range with the given index starts: the leading ranges have one of
/// the remaining rows each.
pub open spec fn shard_start(total: nat, count: nat, index: nat) -> nat {
    index * (total / count) + if index < total % count {
        index
    } else {
        total % count
    }
}

/// How many rows the range with the given index has.
pub open spec fn shard_size(total: nat, count: nat, index: nat) -> nat {
    total / count + if index < total % count {
        1nat
    } else {
        0nat
    }
}

/// Some rows split into at most as many contiguous ranges, each as start and
/// count.
pub open spec fn row_ranges(total: nat, shards: nat) -> Seq<(usize, usize)> {
    let count = shard_count(total, shards);
    Seq::new(
        count,
        |index: int|
            (
                shard_start(total, count, index as nat) as usize,
                shard_size(total, count, index as nat) as usize,
            ),
    )
}

proof fn lemma_shard_step(total: nat, count: nat, index: nat)
    requires
        0 < count <= total,
        index < count,
    ensures
        shard_start(total, count, index + 1) == shard_start(total, count, index) + shard_size(
            total,
            count,
            index,
        ),
        shard_start(total, count, 0) == 0,
        shard_start(total, count, count) == total,
        shard_start(total, count, index + 1) <= total,
        shard_size(total, count, index) > 0,
{
    let base = total / count;
    let remainder = total % count;
    assert((index + 1) * base == index * base + base) by (nonlinear_arith);
    assert(0 * base == 0) by (nonlinear_arith);
    assert(count * base + remainder == total && remainder < count) by (nonlinear_arith)
        requires
            count > 0,
            base == total / count,
            remainder == total % count,
    ;
    assert((index + 1) * base <= count * base) by (nonlinear_arith)
        requires
            index + 1 <= count,
            base >= 0,
    ;
    assert(base > 0) by (nonlinear_arith)
        requires
            base == total / count,
            0 < count <= total,
    ;
}

/// Splits `total` rows into at most `shards` contiguous ranges.
///
/// The remainder is spread one row at a time across the leading ranges rather than
/// piled onto the last, so no range is systematically larger. There are fewer
/// ranges than requested where there are fewer rows, and none for no rows.
pub fn split_rows(total: usize, shards: usize) -> (ranges: Vec<(usize, usize)>)
    ensures
        ranges@ == row_ranges(total as nat, shards as nat),
{
    let mut ranges: Vec<(usize, usize)> = Vec::new();
    if total == 0 || shards == 0 {
        assert(ranges@ =~= row_ranges(total as nat, shards as nat));
        return ranges;
    }
    let count: usize = if shards < total {
        shards
    } else {
        total
    };
    let base: usize = total / count;
    let remainder: usize = total % count;
    let mut start: usize = 0;
    let mut index: usize = 0;
    proof {
        lemma_shard_step(total as nat, count as nat, 0);
    }
    while index < count
        invariant
            0 < count <= total,
            count == shard_count(total as nat, shards as nat),
            base == total / count,
            remainder == total % count,
            index <= count,
            start == shard_start(total as nat, count as nat, index as nat),
            ranges@ =~= row_ranges(total as nat, shards as nat).take(index as int),
        decreases count - index,
    {
        proof {
            lemma_shard_step(total as nat, count as nat, index as nat);
        }
        let size: usize = if index < remainder {
            base + 1
        } else {
            base
        };
        ranges.push((start, size));
        start = start + size;
        index = index + 1;
    }
    ranges
}

/// The ranges are contiguous, cover every row, are never empty, are as many as there
/// are rows or shards, whichever are fewer, and differ by at most one row in size, the
/// larger ones first.
pub proof fn lemma_row_ranges(total: usize, shards: usize)
    ensures
        ({
            let ranges = row_ranges(total as nat, shards as nat);
            &&& ranges.len() <= total
            &&& ranges.len() <= shards
            &&& ranges.len() == (if total < shards {
                total
            } else {
                shards
            })
            &&& ranges.len() == 0 <==> total == 0 || shards == 0
            &&& ranges.len() > 0 ==> ranges[0].0 == 0 && ranges.last().0 + ranges.last().1 == total
            &&& forall|i: int|
                0 <= i < ranges.len() - 1 ==> (#[trigger] ranges[i]).0 + ranges[i].1 == ranges[i
                    + 1].0
            &&& forall|i: int| 0 <= i < ranges.len() ==> (#[trigger] ranges[i]).1 > 0
            &&& forall|i: int, j: int|
                0 <= i < ranges.len() && 0 <= j < ranges.len() ==> (#[trigger] ranges[i]).1 <= (
                #[trigger] ranges[j]).1 + 1
            &&& forall|i: int, j: int|
                0 <= i <= j < ranges.len() ==> (#[trigger] ranges[i]).1 >= (#[trigger] ranges[j]).1
        }),
{
    let count = shard_count(total as nat, shards as nat);
    let ranges = row_ranges(total as nat, shards as nat);
    if count > 0 {
        assert forall|i: int| 0 <= i < ranges.len() implies (#[trigger] ranges[i]).1 > 0
            && ranges[i].0 == shard_start(total as nat, count, i as nat) && ranges[i].1
            == shard_size(total as nat, count, i as nat) by {
            lemma_shard_step(total as nat, count, i as nat);
        }
        assert forall|i: int| 0 <= i < ranges.len() - 1 implies (#[trigger] ranges[i]).0
            + ranges[i].1 == ranges[i + 1].0 by {
            lemma_shard_step(total as nat, count, i as nat);
            assert(ranges[i + 1].0 == shard_start(total as nat, count, (i + 1) as nat));
        }
        lemma_shard_step(total as nat, count, 0);
        lemma_shard_step(total as nat, count, (count - 1) as nat);
        assert(ranges[0].0 == shard_start(total as nat, count, 0));
        assert(ranges[count - 1].0 == shard_start(total as nat, count, (count - 1) as nat));
    }
}

/// The name of the document that a shard writes.
pub open spec fn shard_file(index: nat) -> Seq<char> {
    "shard-"@ + pad_front(decimal(index), '0', 4) + ".json"@
}

/// Different shards write different documents.
pub proof fn lemma_shard_files_differ(left: nat, right: nat)
    requires
        shard_file(left) == shard_file(right),
    ensures
        left == right,
{
    let a = pad_front(decimal(left), '0', 4);
    let b = pad_front(decimal(right), '0', 4);
    reveal_strlit("shard-");
    reveal_strlit(".json");
    assert(shard_file(left).len() == a.len() + 11);
    assert(shard_file(right).len() == b.len() + 11);
    assert(shard_file(left).subrange(6, a.len() as int + 6) =~= a);
    assert(shard_file(right).subrange(6, b.len() as int + 6) =~= b);
    lemma_zero_padding(left, 4);
    lemma_zero_padding(right, 4);
}

/// A range of rows as a worker is told it.
pub open spec fn range_text(range: (usize, usize)) -> Seq<char> {
    decimal(range.0 as nat) + ":"@ + decimal(range.1 as nat)
}

/// An argument for a worker. Paths are left to the caller, since they need not be
/// text.
#[derive(Debug, PartialEq, Eq)]
pub enum WorkerArgument {
    /// The rule file.
    Program,
    /// The document that the shard writes.
    Output,
    /// The directory of the model cache.
    CacheDirectory,
    /// The directory that imports are relative to.
    ImportDirectory,
    /// Any other argument.
    Text(String),
}

/// What a [WorkerArgument] says.
pub enum ArgumentView {
    Program,
    Output,
    CacheDirectory,
    ImportDirectory,
    Text(Seq<char>),
}

impl View for WorkerArgument {
    type V = ArgumentView;

    open spec fn view(&self) -> ArgumentView {
        match *self {
            WorkerArgument::Program => ArgumentView::Program,
            WorkerArgument::Output => ArgumentView::Output,
            WorkerArgument::CacheDirectory => ArgumentView::CacheDirectory,
            WorkerArgument::ImportDirectory => ArgumentView::ImportDirectory,
            WorkerArgument::Text(text) => ArgumentView::Text(text@),
        }
    }
}

/// What a list of arguments says.
pub open spec fn arguments_view(arguments: Seq<WorkerArgument>) -> Seq<ArgumentView> {
    Seq::new(arguments.len(), |i: int| arguments[i]@)
}

/// The arguments for parameter bindings.
pub open spec fn parameter_arguments(parameters: Seq<(Seq<char>, Seq<char>)>) -> Seq<ArgumentView>
    decreases parameters.len(),
{
    if parameters.len() == 0 {
        Seq::empty()
    } else {
        let last = parameters.last();
        parameter_arguments(parameters.drop_last()).push(ArgumentView::Text("--param"@)).push(
            ArgumentView::Text(last.0 + "="@ + last.1),
        )
    }
}

/// The arguments that every worker gets.
pub open spec fn common_arguments(predicate: Seq<char>, range: (usize, usize)) -> Seq<
    ArgumentView,
> {
    seq![
        ArgumentView::Program,
        ArgumentView::Text("--explain"@),
        ArgumentView::Text(predicate),
        ArgumentView::Text("--explain-range"@),
        ArgumentView::Text(range_text(range)),
        ArgumentView::Text("--explain-output"@),
        ArgumentView::Output,
        ArgumentView::Text("--cache-dir"@),
        ArgumentView::CacheDirectory,
        ArgumentView::Text("--export"@),
        ArgumentView::Text("none"@),
        ArgumentView::Text("--report"@),
        ArgumentView::Text("none"@),
    ]
}

/// The arguments of the worker for some rows of a predicate: it restores the model
/// from the cache, with the bindings and the import directory of this run.
pub open spec fn worker_arguments(
    predicate: Seq<char>,
    range: (usize, usize),
    import_directory: bool,
    parameters: Seq<(Seq<char>, Seq<char>)>,
) -> Seq<ArgumentView> {
    let import = if import_directory {
        seq![ArgumentView::Text("--import-dir"@), ArgumentView::ImportDirectory]
    } else {
        Seq::empty()
    };
    common_arguments(predicate, range) + import + parameter_arguments(parameters)
}

/// What a list of bindings says.
pub open spec fn pairs_view(pairs: Seq<(String, String)>) -> Seq<(Seq<char>, Seq<char>)> {
    Seq::new(pairs.len(), |i: int| (pairs[i].0@, pairs[i].1@))
}

fn push_text(arguments: &mut Vec<WorkerArgument>, text: &str)
    ensures
        arguments_view(final(arguments)@) == arguments_view(old(arguments)@).push(
            ArgumentView::Text(text@),
        ),
{
    arguments.push(WorkerArgument::Text(text.to_owned()));
    assert(arguments_view(arguments@) =~= arguments_view(old(arguments)@).push(
        ArgumentView::Text(text@),
    ));
}

fn push_argument(arguments: &mut Vec<WorkerArgument>, argument: WorkerArgument)
    ensures
        arguments_view(final(arguments)@) == arguments_view(old(arguments)@).push(argument@),
{
    arguments.push(argument);
    assert(arguments_view(arguments@) =~= arguments_view(old(arguments)@).push(argument@));
}

fn range_of(range: (usize, usize)) -> (text: String)
    ensures
        text@ == range_text(range),
{
    let mut text = decimal_text(range.0 as u128);
    text.append(":");
    text.append(decimal_text(range.1 as u128).as_str());
    text
}

/// Lists the arguments of a worker.
pub fn list_worker_arguments(
    predicate: &str,
    range: (usize, usize),
    import_directory: bool,
    parameters: &Vec<(String, String)>,
) -> (arguments: Vec<WorkerArgument>)
    ensures
        arguments_view(arguments@) == worker_arguments(
            predicate@,
            range,
            import_directory,
            pairs_view(parameters@),
        ),
{
    let mut arguments: Vec<WorkerArgument> = Vec::new();
    assert(arguments_view(arguments@) =~= Seq::<ArgumentView>::empty());
    push_argument(&mut arguments, WorkerArgument::Program);
    push_text(&mut arguments, "--explain");
    push_text(&mut arguments, predicate);
    push_text(&mut arguments, "--explain-range");
    push_text(&mut arguments, range_of(range).as_str());
    push_text(&mut arguments, "--explain-output");
    push_argument(&mut arguments, WorkerArgument::Output);
    push_text(&mut arguments, "--cache-dir");
    push_argument(&mut arguments, WorkerArgument::CacheDirectory);
    push_text(&mut arguments, "--export");
    push_text(&mut arguments, "none");
    push_text(&mut arguments, "--report");
    push_text(&mut arguments, "none");
    assert(arguments_view(arguments@) =~= common_arguments(predicate@, range));
    if import_directory {
        push_text(&mut arguments, "--import-dir");
        push_argument(&mut arguments, WorkerArgument::ImportDirectory);
    }
    let ghost before = arguments_view(arguments@);
    let ghost pairs = pairs_view(parameters@);
    let mut index: usize = 0;
    assert(before =~= before + parameter_arguments(pairs.take(0)));
    while index < parameters.len()
        invariant
            index <= parameters@.len(),
            pairs == pairs_view(parameters@),
            arguments_view(arguments@) == before + parameter_arguments(pairs.take(index as int)),
        decreases parameters@.len() - index,
    {
        let mut binding = parameters[index].0.clone();
        binding.append("=");
        binding.append(parameters[index].1.as_str());
        push_text(&mut arguments, "--param");
        push_text(&mut arguments, binding.as_str());
        proof {
            let now = pairs.take(index + 1);
            assert(now.drop_last() =~= pairs.take(index as int));
            assert(now.last() == pairs[index as int]);
            assert(arguments_view(arguments@) =~= before + parameter_arguments(now));
        }
        index = index + 1;
    }
    assert(pairs.take(index as int) =~= pairs);
    assert(arguments_view(arguments@) =~= worker_arguments(
        predicate@,
        range,
        import_directory,
        pairs_view(parameters@),
    ));
    arguments
}

/// A shard that is to be explained by a worker.
#[derive(Debug)]
pub struct Shard {
    /// Index of the shard, which its document is named after.
    pub index: usize,
    /// Start and count of the rows to explain.
    pub range: (usize, usize),
    /// Name of the document, inside the output directory.
    pub file: String,
    /// Arguments of the worker.
    pub arguments: Vec<WorkerArgument>,
}

/// What the controller does.
#[derive(Debug)]
pub enum ControllerPlan {
    /// There is nothing to explain, which is noted.
    Nothing {
        /// The note.
        note: String,
    },
    /// Workers are started, all of them before any is waited for.
    Run {
        /// The note on what is being done.
        note: String,
        /// What is to be explained.
        shards: Vec<Shard>,
    },
}

/// The note where there is nothing to explain.
pub open spec fn nothing_note(predicate: Seq<char>) -> Seq<char> {
    "note: "@ + predicate + " has no facts to explain"@
}

/// The note where workers are started.
pub open spec fn start_note(predicate: Seq<char>, total: nat, workers: nat) -> Seq<char> {
    "note: explaining "@ + decimal(total) + " facts of "@ + predicate + " across "@ + decimal(
        workers,
    ) + " worker(s)"@
}

/// Plans how the facts of a predicate are explained by at most as many workers.
pub fn plan_controller(
    predicate: &str,
    total_rows: usize,
    workers: usize,
    import_directory: bool,
    parameters: &Vec<(String, String)>,
) -> (plan: ControllerPlan)
    ensures
        ({
            let ranges = row_ranges(total_rows as nat, workers as nat);
            if ranges.len() == 0 {
                plan matches ControllerPlan::Nothing { note } && note@ == nothing_note(predicate@)
            } else {
                &&& plan matches ControllerPlan::Run { note, shards }
                &&& note@ == start_note(predicate@, total_rows as nat, ranges.len())
                &&& shards@.len() == ranges.len()
                &&& forall|i: int|
                    0 <= i < shards@.len() ==> {
                        &&& (#[trigger] shards@[i]).index == i
                        &&& shards@[i].range == ranges[i]
                        &&& shards@[i].file@ == shard_file(i as nat)
                        &&& arguments_view(shards@[i].arguments@) == worker_arguments(
                            predicate@,
                            ranges[i],
                            import_directory,
                            pairs_view(parameters@),
                        )
                    }
            }
        }),
{
    let ranges = split_rows(total_rows, workers);
    if ranges.len() == 0 {
        let mut note = "note: ".to_owned();
        note.append(predicate);
        note.append(" has no facts to explain");
        return ControllerPlan::Nothing { note };
    }
    let mut note = "note: explaining ".to_owned();
    note.append(decimal_text(total_rows as u128).as_str());
    note.append(" facts of ");
    note.append(predicate);
    note.append(" across ");
    note.append(decimal_text(ranges.len() as u128).as_str());
    note.append(" worker(s)");
    let mut shards: Vec<Shard> = Vec::new();
    let mut index: usize = 0;
    while index < ranges.len()
        invariant
            index <= ranges@.len(),
            shards@.len() == index,
            forall|i: int|
                0 <= i < index ==> {
                    &&& (#[trigger] shards@[i]).index == i
                    &&& shards@[i].range == ranges@[i]
                    &&& shards@[i].file@ == shard_file(i as nat)
                    &&& arguments_view(shards@[i].arguments@) == worker_arguments(
                        predicate@,
                        ranges@[i],
                        import_directory,
                        pairs_view(parameters@),
                    )
                },
        decreases ranges@.len() - index,
    {
        let range: (usize, usize) = ranges[index];
        let mut file = "shard-".to_owned();
        file.append(zero_padded(index, 4).as_str());
        file.append(".json");
        let arguments = list_worker_arguments(predicate, range, import_directory, parameters);
        shards.push(Shard { index, range, file, arguments });
        index = index + 1;
    }
    ControllerPlan::Run { note, shards }
}

/// Outcome of one worker.
#[derive(Debug)]
pub struct ShardOutcome {
    /// Index of the shard.
    pub index: usize,
    /// Rows it was asked to explain.
    pub range: (usize, usize),
    /// Where it wrote its trace.
    pub output: String,
    /// Whether it exited successfully.
    pub succeeded: bool,
}

/// The message for a shard that failed.
pub open spec fn failure_text(outcome: ShardOutcome) -> Seq<char> {
    "error: shard "@ + decimal(outcome.index as nat) + " (rows "@ + decimal(outcome.range.0 as nat)
        + ".."@ + decimal((outcome.range.0 + outcome.range.1) as nat) + ") failed; "@
        + outcome.output@ + " is missing or incomplete"@
}

/// The messages for all shards that failed.
pub open spec fn failure_texts(outcomes: Seq<ShardOutcome>) -> Seq<Seq<char>>
    decreases outcomes.len(),
{
    if outcomes.len() == 0 {
        Seq::empty()
    } else {
        let front = failure_texts(outcomes.drop_last());
        if outcomes.last().succeeded {
            front
        } else {
            front.push(failure_text(outcomes.last()))
        }
    }
}

/// What a list of texts says.
pub open spec fn texts_view(texts: Seq<String>) -> Seq<Seq<char>> {
    Seq::new(texts.len(), |i: int| texts[i]@)
}

/// How an explanation ended.
#[derive(Debug)]
pub enum ControllerResult {
    /// Every shard was written, which is noted.
    Complete {
        /// Number of facts that were explained.
        facts: usize,
        /// The note.
        note: String,
    },
    /// Some shards failed. Nothing is accepted then: a complete set of documents
    /// cannot be told from one that lacks a shard by looking at the files.
    Failed {
        /// Number of shards that failed.
        failed: usize,
        /// Number of all shards.
        total: usize,
        /// A message for each shard that failed.
        messages: Vec<String>,
    },
}

/// Judges the outcomes of all workers.
pub fn conclude_controller(
    outcomes: &Vec<ShardOutcome>,
    total_rows: usize,
    output_directory: &str,
) -> (result: ControllerResult)
    requires
        forall|i: int|
            0 <= i < outcomes@.len() ==> (#[trigger] outcomes@[i]).range.0 + outcomes@[i].range.1
                <= usize::MAX,
    ensures
        ({
            let texts = failure_texts(outcomes@);
            if texts.len() == 0 {
                &&& result matches ControllerResult::Complete { facts, note }
                &&& facts == total_rows
                &&& note@ == "note: wrote "@ + decimal(outcomes@.len()) + " shard(s) to "@
                    + output_directory@
            } else {
                &&& result matches ControllerResult::Failed { failed, total, messages }
                &&& failed == texts.len()
                &&& total == outcomes@.len()
                &&& texts_view(messages@) == texts
            }
        }),
{
    let mut messages: Vec<String> = Vec::new();
    let mut index: usize = 0;
    assert(texts_view(messages@) =~= failure_texts(outcomes@.take(0)));
    while index < outcomes.len()
        invariant
            index <= outcomes@.len(),
            forall|i: int|
                0 <= i < outcomes@.len() ==> (#[trigger] outcomes@[i]).range.0
                    + outcomes@[i].range.1 <= usize::MAX,
            texts_view(messages@) == failure_texts(outcomes@.take(index as int)),
        decreases outcomes@.len() - index,
    {
        let outcome = &outcomes[index];
        let ghost before = messages@;
        proof {
            let now = outcomes@.take(index + 1);
            assert(now.drop_last() =~= outcomes@.take(index as int));
            assert(now.last() == *outcome);
        }
        if !outcome.succeeded {
            let mut message = "error: shard ".to_owned();
            message.append(decimal_text(outcome.index as u128).as_str());
            message.append(" (rows ");
            message.append(decimal_text(outcome.range.0 as u128).as_str());
            message.append("..");
            message.append(decimal_text((outcome.range.0 + outcome.range.1) as u128).as_str());
            message.append(") failed; ");
            message.append(outcome.output.as_str());
            message.append(" is missing or incomplete");
            messages.push(message);
            assert(texts_view(messages@) =~= texts_view(before).push(failure_text(*outcome)));
        }
        index = index + 1;
    }
    assert(outcomes@.take(index as int) =~= outcomes@);
    assert(texts_view(messages@).len() == messages@.len());
    if messages.len() > 0 {
        return ControllerResult::Failed {
            failed: messages.len(),
            total: outcomes.len(),
            messages,
        };
    }
    let mut note = "note: wrote ".to_owned();
    note.append(decimal_text(outcomes.len() as u128).as_str());
    note.append(" shard(s) to ");
    note.append(output_directory);
    ControllerResult::Complete { facts: total_rows, note }
}

/// The explanation is complete exactly where every worker succeeded.
pub proof fn lemma_complete_where_all_succeed(outcomes: Seq<ShardOutcome>)
    ensures
        failure_texts(outcomes).len() == 0 <==> forall|i: int|
            0 <= i < outcomes.len() ==> (#[trigger] outcomes[i]).succeeded,
    decreases outcomes.len(),
{
    if outcomes.len() > 0 {
        let front = outcomes.drop_last();
        lemma_complete_where_all_succeed(front);
        if failure_texts(outcomes).len() == 0 {
            assert forall|i: int| 0 <= i < outcomes.len() implies (
            #[trigger] outcomes[i]).succeeded by {
                if i < front.len() {
                    assert(front[i].succeeded);
                }
            }
        }
        if forall|i: int| 0 <= i < outcomes.len() ==> (#[trigger] outcomes[i]).succeeded {
            assert forall|i: int| 0 <= i < front.len() implies (#[trigger] front[i]).succeeded by {
                assert(outcomes[i].succeeded);
            }
            assert(outcomes[outcomes.len() - 1].succeeded);
        }
    }
}

/// Why a worker failed.
#[derive(Debug)]
pub enum WorkerError {
    /// There is no destination for the document.
    MissingExplainOutput,
    /// The document could not be created.
    Unwritable,
    /// The document could not be written out.
    SerializationError {
        /// Name of the document.
        filename: String,
    },
}

/// What came of writing the document of a worker.
#[derive(Clone, Copy, Debug, PartialEq, Eq, Structural)]
pub enum DocumentWrite {
    /// The file could not be created.
    NotCreated,
    /// The trace could not be written into it.
    NotSerialized,
    /// The document is complete.
    Written,
}

/// Judges what a worker has done with its trace: without a destination it has
/// nothing useful to do, and otherwise the document has to be complete.
pub fn conclude_worker(output: Option<&str>, write: DocumentWrite) -> (result: Result<
    (),
    WorkerError,
>)
    ensures
        match output {
            None => result matches Err(WorkerError::MissingExplainOutput),
            Some(name) => match write {
                DocumentWrite::NotCreated => result matches Err(WorkerError::Unwritable),
                DocumentWrite::NotSerialized => result matches Err(
                    WorkerError::SerializationError { filename },
                ) && filename@ == name@,
                DocumentWrite::Written => result is Ok,
            },
        },
{
    match output {
        None => Err(WorkerError::MissingExplainOutput),
        Some(name) => match write {
            DocumentWrite::NotCreated => Err(WorkerError::Unwritable),
            DocumentWrite::NotSerialized => Err(
                WorkerError::SerializationError { filename: name.to_owned() },
            ),
            DocumentWrite::Written => Ok(()),
        },
    }
}

/// Every binding of a run is handed on to every worker, in order and as the last of
/// its arguments: an option, then the name, an equals sign and the value.
pub proof fn lemma_workers_get_all_bindings(
    predicate: Seq<char>,
    range: (usize, usize),
    import_directory: bool,
    parameters: Seq<(Seq<char>, Seq<char>)>,
)
    ensures
        ({
            let arguments = worker_arguments(predicate, range, import_directory, parameters);
            let start = arguments.len() - 2 * parameters.len();
            &&& start == 13 + if import_directory {
                2int
            } else {
                0int
            }
            &&& forall|i: int|
                0 <= i < parameters.len() ==> {
                    &&& #[trigger] arguments[start + 2 * i] == ArgumentView::Text("--param"@)
                    &&& arguments[start + 2 * i + 1] == ArgumentView::Text(
                        parameters[i].0 + "="@ + parameters[i].1,
                    )
                }
            &&& arguments.take(start) == worker_arguments(
                predicate,
                range,
                import_directory,
                Seq::empty(),
            )
        }),
{
    let none = Seq::<(Seq<char>, Seq<char>)>::empty();
    let arguments = worker_arguments(predicate, range, import_directory, parameters);
    let bare = worker_arguments(predicate, range, import_directory, none);
    lemma_parameter_arguments(parameters);
    assert(bare + parameter_arguments(parameters) =~= arguments);
    assert(arguments.take(bare.len() as int) =~= bare);
    let start = bare.len() as int;
    assert forall|i: int| 0 <= i < parameters.len() implies {
        &&& #[trigger] arguments[start + 2 * i] == ArgumentView::Text("--param"@)
        &&& arguments[start + 2 * i + 1] == ArgumentView::Text(
            parameters[i].0 + "="@ + parameters[i].1,
        )
    } by {
        assert(arguments[start + 2 * i] == parameter_arguments(parameters)[2 * i]);
        assert(arguments[start + 2 * i + 1] == parameter_arguments(parameters)[2 * i + 1]);
    }
}

proof fn lemma_parameter_arguments(parameters: Seq<(Seq<char>, Seq<char>)>)
    ensures
        parameter_arguments(parameters).len() == 2 * parameters.len(),
        forall|i: int|
            0 <= i < parameters.len() ==> {
                &&& #[trigger] parameter_arguments(parameters)[2 * i] == ArgumentView::Text(
                    "--param"@,
                )
                &&& parameter_arguments(parameters)[2 * i + 1] == ArgumentView::Text(
                    parameters[i].0 + "="@ + parameters[i].1,
                )
            },
    decreases parameters.len(),
{
    if parameters.len() > 0 {
        let front = parameters.drop_last();
        lemma_parameter_arguments(front);
        assert forall|i: int| 0 <= i < parameters.len() implies {
            &&& #[trigger] parameter_arguments(parameters)[2 * i] == ArgumentView::Text("--param"@)
            &&& parameter_arguments(parameters)[2 * i + 1] == ArgumentView::Text(
                parameters[i].0 + "="@ + parameters[i].1,
            )
        } by {
            if i < front.len() {
                assert(parameter_arguments(parameters)[2 * i] == parameter_arguments(front)[2 * i]);
                assert(parameter_arguments(parameters)[2 * i + 1] == parameter_arguments(
                    front,
                )[2 * i + 1]);
                assert(front[i] == parameters[i]);
            }
        }
    }
}

/// Every worker runs the same program on the same cache, explains its own rows of the
/// predicate into its own document, and writes and reports nothing else; where there
/// is an import directory it gets that too.
pub proof fn lemma_worker_options(
    predicate: Seq<char>,
    range: (usize, usize),
    import_directory: bool,
    parameters: Seq<(Seq<char>, Seq<char>)>,
)
    ensures
        ({
            let arguments = worker_arguments(predicate, range, import_directory, parameters);
            &&& arguments[0] == ArgumentView::Program
            &&& arguments[1] == ArgumentView::Text("--explain"@)
            &&& arguments[2] == ArgumentView::Text(predicate)
            &&& arguments[3] == ArgumentView::Text("--explain-range"@)
            &&& arguments[4] == ArgumentView::Text(
                decimal(range.0 as nat) + ":"@ + decimal(range.1 as nat),
            )
            &&& arguments[5] == ArgumentView::Text("--explain-output"@)
            &&& arguments[6] == ArgumentView::Output
            &&& arguments[7] == ArgumentView::Text("--cache-dir"@)
            &&& arguments[8] == ArgumentView::CacheDirectory
            &&& arguments[9] == ArgumentView::Text("--export"@)
            &&& arguments[10] == ArgumentView::Text("none"@)
            &&& arguments[11] == ArgumentView::Text("--report"@)
            &&& arguments[12] == ArgumentView::Text("none"@)
            &&& import_directory ==> {
                &&& arguments[13] == ArgumentView::Text("--import-dir"@)
                &&& arguments[14] == ArgumentView::ImportDirectory
            }
        }),
{
    lemma_parameter_arguments(parameters);
}

/// The rows that a worker is told can be read back: its start and its count stand
/// on either side of the only colon.
pub proof fn lemma_range_text(range: (usize, usize))
    ensures
        exists|colon: int|
            {
                &&& 0 <= colon < range_text(range).len()
                &&& #[trigger] range_text(range)[colon] == ':'
                &&& is_digits(range_text(range).take(colon))
                &&& is_digits(range_text(range).skip(colon + 1))
                &&& decimal_value(range_text(range).take(colon)) == range.0
                &&& decimal_value(range_text(range).skip(colon + 1)) == range.1
            },
{
    let start = decimal(range.0 as nat);
    let count = decimal(range.1 as nat);
    let colon = start.len() as int;
    reveal_strlit(":");
    lemma_decimal_round_trip(range.0 as nat);
    lemma_decimal_round_trip(range.1 as nat);
    assert(range_text(range)[colon] == ':');
    assert(range_text(range).take(colon) =~= start);
    assert(range_text(range).skip(colon + 1) =~= count);
}

/// The document of a shard is named by at least four digits that give its index.
pub proof fn lemma_shard_file_shape(index: nat)
    ensures
        ({
            let name = shard_file(index);
            &&& name.len() >= 15
            &&& index < 10_000 ==> name.len() == 15
            &&& name.take(6) == seq!['s', 'h', 'a', 'r', 'd', '-']
            &&& decimal_value(name.subrange(6, name.len() - 5)) == index
            &&& name.skip(name.len() - 5) == seq!['.', 'j', 's', 'o', 'n']
        }),
{
    let digits = pad_front(decimal(index), '0', 4);
    if index < 10_000 {
        reveal_with_fuel(pow10, 5);
        lemma_decimal_length(index, 4);
    }
    reveal_strlit("shard-");
    reveal_strlit(".json");
    lemma_zero_padding(index, 4);
    let name = shard_file(index);
    assert(name.subrange(6, name.len() - 5) =~= digits);
    assert(name.take(6) =~= seq!['s', 'h', 'a', 'r', 'd', '-']);
    assert(name.skip(name.len() - 5) =~= seq!['.', 'j', 's', 'o', 'n']);
}

/// Exactly the shards that failed are reported, each once and in order, by its index,
/// the rows that it was to explain and its document.
pub proof fn lemma_failures_are_reported(outcomes: Seq<ShardOutcome>, more: Seq<ShardOutcome>)
    ensures
        failure_texts(outcomes + more) == failure_texts(outcomes) + failure_texts(more),
        outcomes.len() == 1 ==> failure_texts(outcomes) == (if outcomes[0].succeeded {
            Seq::<Seq<char>>::empty()
        } else {
            seq![
                "error: shard "@ + decimal(outcomes[0].index as nat) + " (rows "@ + decimal(
                    outcomes[0].range.0 as nat,
                ) + ".."@ + decimal((outcomes[0].range.0 + outcomes[0].range.1) as nat)
                    + ") failed; "@ + outcomes[0].output@ + " is missing or incomplete"@,
            ]
        }),
    decreases more.len(),
{
    if more.len() > 0 {
        lemma_failures_are_reported(outcomes, more.drop_last());
        assert((outcomes + more).drop_last() =~= outcomes + more.drop_last());
        assert((outcomes + more).last() == more.last());
        assert(failure_texts(outcomes + more) =~= failure_texts(outcomes) + failure_texts(more));
    } else {
        assert(outcomes + more =~= outcomes);
        assert(failure_texts(outcomes) + failure_texts(more) =~= failure_texts(outcomes));
    }
    if outcomes.len() == 1 {
        assert(outcomes.drop_last() =~= Seq::<ShardOutcome>::empty());
        assert(failure_texts(outcomes.drop_last()) =~= Seq::<Seq<char>>::empty());
        assert(outcomes.last() == outcomes[0]);
        if !outcomes[0].succeeded {
            assert(failure_texts(outcomes) =~= seq![failure_text(outcomes[0])]);
        }
    }
}

/// What a list of texts, bindings or arguments says is what each of them says, in their
/// order.
pub proof fn lemma_lists_say_their_parts(
    texts: Seq<String>,
    pairs: Seq<(String, String)>,
    arguments: Seq<WorkerArgument>,
    place: int,
)
    ensures
        texts_view(texts).len() == texts.len(),
        0 <= place < texts.len() ==> texts_view(texts)[place] == texts[place]@,
        pairs_view(pairs).len() == pairs.len(),
        0 <= place < pairs.len() ==> pairs_view(pairs)[place].0 == pairs[place].0@,
        0 <= place < pairs.len() ==> pairs_view(pairs)[place].1 == pairs[place].1@,
        arguments_view(arguments).len() == arguments.len(),
        0 <= place < arguments.len() ==> match arguments[place] {
            WorkerArgument::Program => arguments_view(arguments)[place] is Program,
            WorkerArgument::Output => arguments_view(arguments)[place] is Output,
            WorkerArgument::CacheDirectory => arguments_view(arguments)[place] is CacheDirectory,
            WorkerArgument::ImportDirectory => arguments_view(arguments)[place] is ImportDirectory,
            WorkerArgument::Text(text) => arguments_view(arguments)[place] == ArgumentView::Text(
                text@,
            ),
        },
{
}

/// The note on what is explained names the predicate, and tells how many facts it has
/// and how many workers explain them.
pub proof fn lemma_start_note(predicate: Seq<char>, total: nat, workers: nat)
    ensures
        reads_at(start_note(predicate, total, workers), 17, decimal(total)),
        reads_at(
            start_note(predicate, total, workers),
            27 + decimal(total).len() as int,
            predicate,
        ),
        reads_at(
            start_note(predicate, total, workers),
            35 + decimal(total).len() as int + predicate.len(),
            decimal(workers),
        ),
        reads_at(nothing_note(predicate), 6, predicate),
{
    let note = start_note(predicate, total, workers);
    let facts = decimal(total);
    reveal_strlit("note: explaining ");
    reveal_strlit(" facts of ");
    reveal_strlit(" across ");
    reveal_strlit("note: ");
    assert(note.subrange(17, 17 + facts.len() as int) =~= facts);
    assert(note.subrange(
        27 + facts.len() as int,
        27 + facts.len() as int + predicate.len(),
    ) =~= predicate);
    assert(note.subrange(
        35 + facts.len() as int + predicate.len(),
        35 + facts.len() as int + predicate.len() + decimal(workers).len(),
    ) =~= decimal(workers));
    assert(nothing_note(predicate).subrange(6, 6 + predicate.len() as int) =~= predicate);
}

} // verus!
