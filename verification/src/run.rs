//! What a run of the program does, in which order, and what it reports.

use vstd::prelude::*;
use vstd::string::*;

use crate::explain::{pairs_view, texts_view};
use crate::parameters::{bound_value, Parameters};
use crate::text::{
    append_left_aligned, append_right_aligned, decimal, decimal_text, lemma_decimal_fits, pad_back,
    pad_front,
};

verus! {

/// Which facts are printed.
#[derive(Clone, Copy, Debug, PartialEq, Eq, Structural)]
pub enum FactPrinting {
    /// No facts.
    Nothing,
    /// Facts of predicates that rules derive.
    Idb,
    /// Facts of predicates that are imported.
    Edb,
    /// Facts of all predicates.
    All,
}

impl FactPrinting {
    /// Whether any facts are printed.
    pub fn is_enabled(&self) -> (enabled: bool)
        ensures
            enabled == (*self != FactPrinting::Nothing),
    {
        match self {
            FactPrinting::Nothing => false,
            _ => true,
        }
    }
}

/// What is reported at the end of a run.
#[derive(Clone, Copy, Debug, PartialEq, Eq, Structural)]
pub enum Reporting {
    /// The summary, the timing details and the memory details.
    All,
    /// The summary.
    Short,
    /// The summary and the timing details.
    Time,
    /// The summary and the memory details.
    Mem,
    /// Nothing.
    Nothing,
    /// The summary, unless results were written to the standard output.
    Auto,
}

/// The parts of a report.
#[derive(Clone, Copy, Debug, PartialEq, Eq, Structural)]
pub struct ReportParts {
    /// Whether the summary is printed.
    pub summary: bool,
    /// Whether the timing details are printed.
    pub times: bool,
    /// Whether the memory details are printed.
    pub memory: bool,
}

/// Decides what is printed at the end of a run.
pub fn report_parts(reporting: Reporting, stdout_used: bool) -> (parts: ReportParts)
    ensures
        parts.summary == (reporting == Reporting::All || reporting == Reporting::Short || reporting
            == Reporting::Time || reporting == Reporting::Mem || (reporting == Reporting::Auto
            && !stdout_used)),
        parts.times == (reporting == Reporting::All || reporting == Reporting::Time),
        parts.memory == (reporting == Reporting::All || reporting == Reporting::Mem),
{
    match reporting {
        Reporting::All => ReportParts { summary: true, times: true, memory: true },
        Reporting::Short => ReportParts { summary: true, times: false, memory: false },
        Reporting::Time => ReportParts { summary: true, times: true, memory: false },
        Reporting::Mem => ReportParts { summary: true, times: false, memory: true },
        Reporting::Nothing => ReportParts { summary: false, times: false, memory: false },
        Reporting::Auto => ReportParts { summary: !stdout_used, times: false, memory: false },
    }
}

/// Why there is no program to run.
#[derive(Clone, Copy, Debug, PartialEq, Eq, Structural)]
pub enum RuleFileError {
    /// More than one rule file was given.
    MultipleFilesNotImplemented,
    /// No rule file was given.
    NoInput,
}

/// Checks that there is exactly one rule file.
pub fn check_rule_files(count: usize) -> (result: Result<(), RuleFileError>)
    ensures
        result == (if count > 1 {
            Err(RuleFileError::MultipleFilesNotImplemented)
        } else if count == 0 {
            Err(RuleFileError::NoInput)
        } else {
            Ok(())
        }),
{
    if count > 1 {
        Err(RuleFileError::MultipleFilesNotImplemented)
    } else if count == 0 {
        Err(RuleFileError::NoInput)
    } else {
        Ok(())
    }
}

/// The value that the last of some bindings of a name gives it.
pub open spec fn last_value(pairs: Seq<(Seq<char>, Seq<char>)>, name: Seq<char>) -> Option<
    Seq<char>,
>
    decreases pairs.len(),
{
    if pairs.len() == 0 {
        None
    } else if pairs.last().0 == name {
        Some(pairs.last().1)
    } else {
        last_value(pairs.drop_last(), name)
    }
}

/// Collects the parameter bindings of a run. Of two bindings of one name, the
/// later one counts.
pub fn collect_bindings(pairs: &Vec<(String, String)>) -> (parameters: Parameters)
    ensures
        forall|name: Seq<char>| #[trigger]
            bound_value(parameters@, name) == last_value(pairs_view(pairs@), name),
{
    let ghost views = pairs_view(pairs@);
    let mut parameters = Parameters::new();
    let mut index: usize = 0;
    while index < pairs.len()
        invariant
            index <= pairs@.len(),
            views == pairs_view(pairs@),
            forall|name: Seq<char>| #[trigger]
                bound_value(parameters@, name) == last_value(views.take(index as int), name),
        decreases pairs@.len() - index,
    {
        let ghost before = parameters@;
        parameters.insert(pairs[index].0.clone(), pairs[index].1.clone());
        assert forall|name: Seq<char>| #[trigger]
            bound_value(parameters@, name) == last_value(views.take(index + 1), name) by {
            let now = views.take(index + 1);
            assert(now.drop_last() =~= views.take(index as int));
            assert(now.last() == views[index as int]);
            assert(bound_value(before, name) == last_value(views.take(index as int), name));
        }
        index = index + 1;
    }
    assert(views.take(index as int) =~= views);
    parameters
}

/// A value that a parameter cannot be bound to.
#[derive(Debug, PartialEq, Eq)]
pub struct InvalidParameter {
    /// What was rejected.
    pub parameter: String,
}

/// Collects the parameter bindings of a run, unless the engine has rejected one:
/// then there are none, and what was rejected is reported.
pub fn accept_bindings(pairs: &Vec<(String, String)>, rejected: Option<String>) -> (result: Result<
    Parameters,
    InvalidParameter,
>)
    ensures
        match rejected {
            Some(parameter) => result matches Err(error) && error.parameter@ == parameter@,
            None => result matches Ok(parameters) && forall|name: Seq<char>| #[trigger]
                bound_value(parameters@, name) == last_value(pairs_view(pairs@), name),
        },
{
    match rejected {
        Some(parameter) => Err(InvalidParameter { parameter }),
        None => Ok(collect_bindings(pairs)),
    }
}

/// What the model cache can do for a run.
#[derive(Clone, Copy, Debug, PartialEq, Eq, Structural)]
pub enum CacheState {
    /// The cache is not in play.
    Unused,
    /// A stored model applies and is restored instead of reasoning.
    Hit,
    /// Nothing applies: after reasoning the model is stored.
    Miss,
}

/// The note where a program cannot be keyed.
pub const UNKEYED_NOTE: &'static str = "note: not using the model cache -- this program imports a resource that cannot be fingerprinted, so a stored model could not be shown to still apply";

/// The note where a stored model applies.
pub const HIT_NOTE: &'static str = "note: reusing the cached model, skipping inference";

/// Decides what the cache can do for a run, given whether there is a cache
/// directory, whether the program could be keyed, and whether a stored model has
/// its key.
///
/// A program that imports anything other than a local file is not keyed, since
/// treating such a resource as unchanged would serve a stale model.
pub fn resolve_cache(directory: bool, keyed: bool, found: bool) -> (decision: (
    CacheState,
    Option<&'static str>,
))
    ensures
        decision.0 == (if !directory || !keyed {
            CacheState::Unused
        } else if found {
            CacheState::Hit
        } else {
            CacheState::Miss
        }),
        match decision.1 {
            Some(note) => directory && (if keyed {
                found && note@ == HIT_NOTE@
            } else {
                note@ == UNKEYED_NOTE@
            }),
            None => !directory || (keyed && !found),
        },
{
    if !directory {
        return (CacheState::Unused, None);
    }
    if !keyed {
        return (CacheState::Unused, Some(UNKEYED_NOTE));
    }
    if found {
        (CacheState::Hit, Some(HIT_NOTE))
    } else {
        (CacheState::Miss, None)
    }
}

/// What a run does at a time.
#[derive(Clone, Copy, Debug, PartialEq, Eq, Structural)]
pub enum Phase {
    /// Load and normalize the program.
    Load,
    /// Look into the model cache: after the program is normalized, which the key
    /// is made of, and before any imported data is read.
    ResolveCache,
    /// Check that all exports are possible.
    ValidateExports,
    /// Restore the model from the cache.
    RestoreModel,
    /// Compute the model.
    Reason,
    /// Store the model in the cache: before exports, so that a failing export does
    /// not discard it.
    StoreModel,
    /// Write the results.
    Export,
    /// Print facts.
    PrintFacts,
    /// Explain facts: within the measured time.
    Trace,
    /// Report.
    Report,
    /// Nothing: the run is over.
    Finished,
}

/// What a run was asked to do.
#[derive(Clone, Copy, Debug, PartialEq, Eq, Structural)]
pub struct RunOptions {
    /// Whether results are not written.
    pub export_disabled: bool,
    /// Which facts are printed.
    pub fact_printing: FactPrinting,
    /// Whether facts are explained.
    pub tracing: bool,
    /// What is reported.
    pub reporting: Reporting,
}

/// The order of the phases.
pub open spec fn rank(phase: Phase) -> nat {
    match phase {
        Phase::Load => 0,
        Phase::ResolveCache => 1,
        Phase::ValidateExports => 2,
        Phase::RestoreModel => 3,
        Phase::Reason => 4,
        Phase::StoreModel => 5,
        Phase::Export => 6,
        Phase::PrintFacts => 7,
        Phase::Trace => 8,
        Phase::Report => 9,
        Phase::Finished => 10,
    }
}

/// Whether a phase is part of a run.
pub open spec fn wanted(options: RunOptions, cache: CacheState, phase: Phase) -> bool {
    match phase {
        Phase::RestoreModel => cache == CacheState::Hit,
        Phase::Reason => cache != CacheState::Hit,
        Phase::StoreModel => cache == CacheState::Miss,
        Phase::Export => !options.export_disabled,
        Phase::PrintFacts => options.fact_printing != FactPrinting::Nothing,
        Phase::Trace => options.tracing,
        _ => true,
    }
}

/// Whether `next` is the first phase behind `phase` that is part of a run.
pub open spec fn follows(
    options: RunOptions,
    cache: CacheState,
    phase: Phase,
    next: Phase,
) -> bool {
    &&& rank(phase) < rank(next)
    &&& wanted(options, cache, next)
    &&& forall|other: Phase|
        rank(phase) < #[trigger] rank(other) < rank(next) ==> !wanted(options, cache, other)
}

/// The phase with the next higher rank, whether it is part of a run or not.
fn successor(phase: Phase) -> (next: Phase)
    requires
        phase != Phase::Finished,
    ensures
        rank(next) == rank(phase) + 1,
{
    match phase {
        Phase::Load => Phase::ResolveCache,
        Phase::ResolveCache => Phase::ValidateExports,
        Phase::ValidateExports => Phase::RestoreModel,
        Phase::RestoreModel => Phase::Reason,
        Phase::Reason => Phase::StoreModel,
        Phase::StoreModel => Phase::Export,
        Phase::Export => Phase::PrintFacts,
        Phase::PrintFacts => Phase::Trace,
        Phase::Trace => Phase::Report,
        Phase::Report => Phase::Finished,
        Phase::Finished => Phase::Finished,
    }
}

fn is_wanted(options: RunOptions, cache: CacheState, phase: Phase) -> (result: bool)
    ensures
        result == wanted(options, cache, phase),
{
    match phase {
        Phase::RestoreModel => cache == CacheState::Hit,
        Phase::Reason => cache != CacheState::Hit,
        Phase::StoreModel => cache == CacheState::Miss,
        Phase::Export => !options.export_disabled,
        Phase::PrintFacts => options.fact_printing.is_enabled(),
        Phase::Trace => options.tracing,
        _ => true,
    }
}

/// What came of a phase.
#[derive(Clone, Copy, Debug, PartialEq, Eq, Structural)]
pub enum PhaseOutcome {
    /// It succeeded.
    Succeeded,
    /// It failed.
    Failed,
    /// The cache was looked into.
    CacheResolved(CacheState),
    /// Results were written, to the standard output among others or not.
    Exported(bool),
}

/// How a run goes on.
#[derive(Clone, Copy, Debug, PartialEq, Eq, Structural)]
pub enum RunStep {
    /// With the given phase.
    Continue(Phase),
    /// With the given phase, after a warning that the model could not be stored:
    /// the results are correct all the same.
    ContinueWithWarning(Phase),
    /// Not at all: the error is reported.
    Abort,
}

/// A run of the program.
#[derive(Clone, Copy, Debug)]
pub struct Run {
    options: RunOptions,
    cache: CacheState,
    stdout_used: bool,
    phase: Phase,
}

/// Where a [Run] is.
pub struct RunView {
    pub options: RunOptions,
    pub cache: CacheState,
    pub stdout_used: bool,
    pub phase: Phase,
}

impl View for Run {
    type V = RunView;

    closed spec fn view(&self) -> RunView {
        RunView {
            options: self.options,
            cache: self.cache,
            stdout_used: self.stdout_used,
            phase: self.phase,
        }
    }
}

impl Run {
    /// A run at its first phase.
    pub fn new(options: RunOptions) -> (run: Self)
        ensures
            run@ == (RunView {
                options,
                cache: CacheState::Unused,
                stdout_used: false,
                phase: Phase::Load,
            }),
    {
        Run { options, cache: CacheState::Unused, stdout_used: false, phase: Phase::Load }
    }

    /// The phase that this run is in.
    pub fn phase(&self) -> (phase: Phase)
        ensures
            phase == self@.phase,
    {
        self.phase
    }

    /// What this run reports at its end.
    pub fn report(&self) -> (parts: ReportParts)
        ensures
            parts.summary == (self@.options.reporting == Reporting::All || self@.options.reporting
                == Reporting::Short || self@.options.reporting == Reporting::Time
                || self@.options.reporting == Reporting::Mem || (self@.options.reporting
                == Reporting::Auto && !self@.stdout_used)),
            parts.times == (self@.options.reporting == Reporting::All || self@.options.reporting
                == Reporting::Time),
            parts.memory == (self@.options.reporting == Reporting::All || self@.options.reporting
                == Reporting::Mem),
    {
        report_parts(self.options.reporting, self.stdout_used)
    }

    /// Goes on after the current phase. A phase that fails ends the run, except
    /// that a model which cannot be stored is only warned about.
    pub fn proceed(&mut self, outcome: PhaseOutcome) -> (step: RunStep)
        requires
            old(self)@.phase != Phase::Finished,
        ensures
            final(self)@.options == old(self)@.options,
            final(self)@.cache == (match outcome {
                PhaseOutcome::CacheResolved(cache) => cache,
                _ => old(self)@.cache,
            }),
            final(self)@.stdout_used == (match outcome {
                PhaseOutcome::Exported(stdout_used) => stdout_used || old(self)@.stdout_used,
                _ => old(self)@.stdout_used,
            }),
            if outcome == PhaseOutcome::Failed && old(self)@.phase != Phase::StoreModel {
                &&& step == RunStep::Abort
                &&& final(self)@.phase == old(self)@.phase
            } else {
                &&& follows(
                    final(self)@.options,
                    final(self)@.cache,
                    old(self)@.phase,
                    final(self)@.phase,
                )
                &&& step == (if outcome == PhaseOutcome::Failed {
                    RunStep::ContinueWithWarning(final(self)@.phase)
                } else {
                    RunStep::Continue(final(self)@.phase)
                })
            },
    {
        let mut warning = false;
        match outcome {
            PhaseOutcome::Failed => {
                if self.phase != Phase::StoreModel {
                    return RunStep::Abort;
                }
                warning = true;
            },
            PhaseOutcome::CacheResolved(cache) => {
                self.cache = cache;
            },
            PhaseOutcome::Exported(stdout_used) => {
                self.stdout_used = stdout_used || self.stdout_used;
            },
            PhaseOutcome::Succeeded => {},
        }
        let ghost start = self.phase;
        let mut next: Phase = successor(self.phase);
        while !is_wanted(self.options, self.cache, next)
            invariant
                rank(start) < rank(next) <= 10,
                forall|other: Phase|
                    rank(start) < #[trigger] rank(other) < rank(next) ==> !wanted(
                        self.options,
                        self.cache,
                        other,
                    ),
            decreases 10 - rank(next),
        {
            let ghost skipped = next;
            next = successor(next);
            assert forall|other: Phase|
                rank(start) < #[trigger] rank(other) < rank(next) implies !wanted(
                self.options,
                self.cache,
                other,
            ) by {
                if rank(other) == rank(skipped) {
                    assert(other == skipped);
                }
            }
        }
        self.phase = next;
        if warning {
            RunStep::ContinueWithWarning(next)
        } else {
            RunStep::Continue(next)
        }
    }
}

/// Phases are never repeated and never left out of order: which one follows is
/// determined, and it comes later.
pub proof fn lemma_phases_in_order(
    options: RunOptions,
    cache: CacheState,
    phase: Phase,
    next: Phase,
    other: Phase,
)
    requires
        follows(options, cache, phase, next),
        follows(options, cache, phase, other),
    ensures
        next == other,
        rank(phase) < rank(next),
{
    assert(rank(next) == rank(other));
}

/// A model is either restored or computed, is stored only where it was computed
/// and nothing applied, and before results are written; and facts are explained
/// before the report, which comes only once everything else is done.
pub proof fn lemma_run_order(options: RunOptions, cache: CacheState)
    ensures
        wanted(options, cache, Phase::RestoreModel) != wanted(options, cache, Phase::Reason),
        wanted(options, cache, Phase::StoreModel) ==> wanted(options, cache, Phase::Reason),
        rank(Phase::Reason) < rank(Phase::StoreModel) < rank(Phase::Export),
        rank(Phase::Trace) < rank(Phase::Report),
        forall|phase: Phase|
            phase != Phase::Report && phase != Phase::Finished ==> #[trigger] rank(phase) < rank(
                Phase::Report,
            ),
{
}

/// The measured block that a phase belongs to.
pub fn timer_of(phase: Phase) -> (timer: Option<&'static str>)
    ensures
        match phase {
            Phase::Load | Phase::ResolveCache | Phase::ValidateExports => timer matches Some(name)
                && name@ == "Reading & Preprocessing"@,
            Phase::RestoreModel | Phase::Reason => timer matches Some(name) && name@
                == "Reasoning"@,
            Phase::Export => timer matches Some(name) && name@
                == "Output & Final Materialization"@,
            Phase::PrintFacts => timer matches Some(name) && name@ == "Printing Facts"@,
            Phase::Trace => timer matches Some(name) && name@ == "Tracing"@,
            Phase::StoreModel | Phase::Report | Phase::Finished => timer is None,
        },
{
    match phase {
        Phase::Load => Some("Reading & Preprocessing"),
        Phase::ResolveCache => Some("Reading & Preprocessing"),
        Phase::ValidateExports => Some("Reading & Preprocessing"),
        Phase::RestoreModel => Some("Reasoning"),
        Phase::Reason => Some("Reasoning"),
        Phase::Export => Some("Output & Final Materialization"),
        Phase::PrintFacts => Some("Printing Facts"),
        Phase::Trace => Some("Tracing"),
        _ => None,
    }
}

/// Selects the predicates whose facts are printed, out of those that rules derive,
/// those that are imported, and all.
pub fn predicates_to_print_facts_for(
    setting: FactPrinting,
    derived: Vec<String>,
    imported: Vec<String>,
    all: Vec<String>,
) -> (predicates: Vec<String>)
    ensures
        predicates@ == (match setting {
            FactPrinting::Nothing => Seq::<String>::empty(),
            FactPrinting::Idb => derived@,
            FactPrinting::Edb => imported@,
            FactPrinting::All => all@,
        }),
{
    match setting {
        FactPrinting::Nothing => Vec::new(),
        FactPrinting::Idb => derived,
        FactPrinting::Edb => imported,
        FactPrinting::All => all,
    }
}

/// Texts, each on a line of its own.
pub open spec fn lines_text(texts: Seq<Seq<char>>) -> Seq<char>
    decreases texts.len(),
{
    if texts.len() == 0 {
        Seq::empty()
    } else {
        lines_text(texts.drop_last()) + texts.last() + "\n"@
    }
}

/// The facts of a table as they are printed: each on a line of its own, in the
/// order of the rows.
pub fn print_facts_for_table(facts: &Vec<String>) -> (text: String)
    ensures
        text@ == lines_text(texts_view(facts@)),
{
    let ghost views = texts_view(facts@);
    let mut text = String::new();
    let mut index: usize = 0;
    assert(text@ =~= lines_text(views.take(0)));
    while index < facts.len()
        invariant
            index <= facts@.len(),
            views == texts_view(facts@),
            text@ == lines_text(views.take(index as int)),
        decreases facts@.len() - index,
    {
        text.append(facts[index].as_str());
        text.append("\n");
        proof {
            let now = views.take(index + 1);
            assert(now.drop_last() =~= views.take(index as int));
            assert(now.last() == facts@[index as int]@);
        }
        index = index + 1;
    }
    assert(views.take(index as int) =~= views);
    text
}

/// How long the parts of a run took, in milliseconds.
#[derive(Clone, Copy, Debug, PartialEq, Eq, Structural)]
pub struct RunTimes {
    /// The whole run.
    pub overall: u128,
    /// Reading and preprocessing.
    pub reading: u128,
    /// Loading tables, which is part of reasoning.
    pub loading: u128,
    /// Reasoning.
    pub execution: u128,
    /// Writing results.
    pub writing: u128,
    /// Explaining facts.
    pub tracing: u128,
}

/// The sum of two numbers, or the largest number where it is larger.
pub open spec fn capped_sum(left: u128, right: u128) -> u128 {
    if left + right <= u128::MAX {
        (left + right) as u128
    } else {
        u128::MAX
    }
}

/// The difference of two numbers, or zero where it is negative.
pub open spec fn capped_difference(left: u128, right: u128) -> u128 {
    if left >= right {
        (left - right) as u128
    } else {
        0
    }
}

/// The longest of the decimal forms of four numbers, by its length.
pub open spec fn longest(first: u128, second: u128, third: u128, fourth: u128) -> nat {
    let a = decimal(first as nat).len();
    let b = decimal(second as nat).len();
    let c = decimal(third as nat).len();
    let d = decimal(fourth as nat).len();
    let ab = if a >= b {
        a
    } else {
        b
    };
    let cd = if c >= d {
        c
    } else {
        d
    };
    if ab >= cd {
        ab
    } else {
        cd
    }
}

/// A line of the summary: a label and a time in a column of the given width.
#[verifier::opaque]
pub open spec fn summary_line(label: Seq<char>, time: u128, width: nat) -> Seq<char> {
    "   "@ + pad_back(label, ' ', 14) + " "@ + pad_front(decimal(time as nat), ' ', width) + "ms"@
}

/// The lines of the summary: the data import, the reasoning without the loading
/// of tables, and the export and the explanation where there were any.
pub open spec fn summary_lines(times: RunTimes, saving: bool, traced: bool) -> Seq<Seq<char>> {
    let import = capped_sum(times.reading, times.loading);
    let writing = if saving {
        times.writing
    } else {
        0
    };
    let tracing = if traced {
        times.tracing
    } else {
        0
    };
    let width = longest(import, times.reading, writing, tracing) + 2;
    let always = seq![
        summary_line("Data import:"@, import, width),
        summary_line("Reasoning:"@, capped_difference(times.execution, times.loading), width),
    ];
    let exported = if saving {
        always.push(summary_line("Data export:"@, writing, width))
    } else {
        always
    };
    if traced {
        exported.push(summary_line("Tracing:"@, tracing, width))
    } else {
        exported
    }
}

/// A piece of a headline.
#[derive(Debug, PartialEq, Eq)]
pub struct Piece {
    /// Its text.
    pub text: String,
    /// Whether it stands out.
    pub emphasized: bool,
}

/// What a list of pieces says.
pub open spec fn pieces_view(pieces: Seq<Piece>) -> Seq<(Seq<char>, bool)> {
    Seq::new(pieces.len(), |i: int| (pieces[i].text@, pieces[i].emphasized))
}

/// The headline of the summary.
pub open spec fn headline(overall: u128, new_facts: usize) -> Seq<(Seq<char>, bool)> {
    seq![
        ("Reasoning completed in "@, false),
        (decimal(overall as nat), true),
        ("ms"@, true),
        (". Derived "@, false),
        (decimal(new_facts as nat), true),
        (" facts."@, false),
    ]
}

/// A short summary of a run.
#[derive(Debug)]
pub struct Summary {
    /// The first line, in pieces.
    pub headline: Vec<Piece>,
    /// The other lines.
    pub lines: Vec<String>,
}

fn digits_of(number: u128) -> (digits: usize)
    ensures
        digits == decimal(number as nat).len(),
        digits <= 39,
{
    proof {
        lemma_decimal_fits(number);
    }
    decimal_text(number).as_str().unicode_len()
}

fn larger(left: usize, right: usize) -> (result: usize)
    ensures
        result == (if left >= right {
            left
        } else {
            right
        }),
{
    if left >= right {
        left
    } else {
        right
    }
}

fn push_line(lines: &mut Vec<String>, label: &str, time: u128, width: usize)
    ensures
        texts_view(final(lines)@) == texts_view(old(lines)@).push(
            summary_line(label@, time, width as nat),
        ),
{
    proof {
        reveal(summary_line);
    }
    let mut line = "   ".to_owned();
    append_left_aligned(&mut line, label, 14);
    line.append(" ");
    append_right_aligned(&mut line, decimal_text(time).as_str(), width);
    line.append("ms");
    lines.push(line);
    assert(texts_view(lines@) =~= texts_view(old(lines)@).push(
        summary_line(label@, time, width as nat),
    ));
}

fn push_piece(pieces: &mut Vec<Piece>, text: &str, emphasized: bool)
    ensures
        pieces_view(final(pieces)@) == pieces_view(old(pieces)@).push((text@, emphasized)),
{
    pieces.push(Piece { text: text.to_owned(), emphasized });
    assert(pieces_view(pieces@) =~= pieces_view(old(pieces)@).push((text@, emphasized)));
}

fn list_headline(overall: u128, new_facts: usize) -> (pieces: Vec<Piece>)
    ensures
        pieces_view(pieces@) == headline(overall, new_facts),
{
    let mut pieces: Vec<Piece> = Vec::new();
    assert(pieces_view(pieces@) =~= Seq::<(Seq<char>, bool)>::empty());
    push_piece(&mut pieces, "Reasoning completed in ", false);
    push_piece(&mut pieces, decimal_text(overall).as_str(), true);
    push_piece(&mut pieces, "ms", true);
    push_piece(&mut pieces, ". Derived ", false);
    push_piece(&mut pieces, decimal_text(new_facts as u128).as_str(), true);
    push_piece(&mut pieces, " facts.", false);
    assert(pieces_view(pieces@) =~= headline(overall, new_facts));
    pieces
}

/// The short summary of a run.
pub fn print_finished_message(
    times: RunTimes,
    new_facts: usize,
    saving: bool,
    traced: bool,
) -> (summary: Summary)
    ensures
        pieces_view(summary.headline@) == headline(times.overall, new_facts),
        texts_view(summary.lines@) == summary_lines(times, saving, traced),
{
    let import: u128 = if times.reading <= u128::MAX - times.loading {
        times.reading + times.loading
    } else {
        u128::MAX
    };
    let reasoning: u128 = if times.execution >= times.loading {
        times.execution - times.loading
    } else {
        0
    };
    let writing: u128 = if saving {
        times.writing
    } else {
        0
    };
    let tracing: u128 = if traced {
        times.tracing
    } else {
        0
    };
    let longest_time: usize = larger(
        larger(digits_of(import), digits_of(times.reading)),
        larger(digits_of(writing), digits_of(tracing)),
    );
    let width: usize = longest_time + 2;
    let headline = list_headline(times.overall, new_facts);
    let mut lines: Vec<String> = Vec::new();
    assert(texts_view(lines@) =~= Seq::<Seq<char>>::empty());
    push_line(&mut lines, "Data import:", import, width);
    push_line(&mut lines, "Reasoning:", reasoning, width);
    if saving {
        push_line(&mut lines, "Data export:", writing, width);
    }
    if traced {
        push_line(&mut lines, "Tracing:", tracing, width);
    }
    assert(texts_view(lines@) =~= summary_lines(times, saving, traced));
    Summary { headline, lines }
}

/// The timing details, around a tree of measured blocks.
pub fn print_timing_details(tree: &str) -> (text: String)
    ensures
        text@ == "\nTiming report:\n\n"@ + tree@,
{
    let mut text = "\nTiming report:\n\n".to_owned();
    text.append(tree);
    text
}

/// The memory details, around a tree of memory uses.
pub fn print_memory_details(usage: &str) -> (text: String)
    ensures
        text@ == "\nMemory report:\n\n"@ + usage@,
{
    let mut text = "\nMemory report:\n\n".to_owned();
    text.append(usage);
    text
}

/// How a run ended.
#[derive(Clone, Copy, Debug, PartialEq, Eq, Structural)]
pub enum RunEnd {
    /// Without an error.
    Success,
    /// With a report on the program, which has errors or only warnings.
    ProgramReport {
        /// Whether it has errors.
        errors: bool,
    },
    /// With any other error.
    Failure,
}

/// Whether the process fails: a report on the program that has only warnings is no
/// failure.
pub fn process_fails(end: RunEnd) -> (fails: bool)
    ensures
        fails == match end {
            RunEnd::Success => false,
            RunEnd::ProgramReport { errors } => errors,
            RunEnd::Failure => true,
        },
{
    match end {
        RunEnd::Success => false,
        RunEnd::ProgramReport { errors } => errors,
        RunEnd::Failure => true,
    }
}

/// Whether phases follow each other in a run for which the cache can do as much.
pub open spec fn run_phases(options: RunOptions, cache: CacheState, phases: Seq<Phase>) -> bool {
    forall|i: int|
        0 <= i < phases.len() - 1 ==> follows(options, cache, #[trigger] phases[i], phases[i + 1])
}

proof fn lemma_ranks_ascend(
    options: RunOptions,
    cache: CacheState,
    phases: Seq<Phase>,
    i: int,
    j: int,
)
    requires
        run_phases(options, cache, phases),
        0 <= i < j < phases.len(),
    ensures
        rank(phases[i]) < rank(phases[j]),
    decreases j,
{
    assert(follows(options, cache, phases[j - 1], phases[j]));
    if i < j - 1 {
        lemma_ranks_ascend(options, cache, phases, i, j - 1);
    }
}

proof fn lemma_wanted_phases_occur(
    options: RunOptions,
    cache: CacheState,
    phases: Seq<Phase>,
    phase: Phase,
)
    requires
        run_phases(options, cache, phases),
        phases.len() > 0,
        wanted(options, cache, phase),
        rank(phases[0]) <= rank(phase) <= rank(phases.last()),
    ensures
        phases.contains(phase),
    decreases phases.len(),
{
    if rank(phase) == rank(phases.last()) {
        assert(phase == phases[phases.len() - 1]);
    } else {
        let front = phases.drop_last();
        let last = phases.len() - 1;
        assert(front.len() > 0);
        assert(follows(options, cache, phases[last - 1], phases[last]));
        assert(front.last() == phases[last - 1]);
        assert(!(rank(front.last()) < rank(phase)));
        assert forall|i: int| 0 <= i < front.len() - 1 implies follows(
            options,
            cache,
            #[trigger] front[i],
            front[i + 1],
        ) by {
            assert(front[i] == phases[i] && front[i + 1] == phases[i + 1]);
        }
        lemma_wanted_phases_occur(options, cache, front, phase);
        let i = choose|i: int| 0 <= i < front.len() && front[i] == phase;
        assert(phases[i] == phase);
    }
}

/// What a run in which nothing fails does, from its start to its end: the program is
/// loaded, the cache looked into and the exports checked; a model is restored where
/// one applies and else computed, and then stored where the cache is in play; and
/// results are written, facts printed and facts explained as asked for, whatever the
/// cache could do, before the report.
pub proof fn lemma_whole_run(options: RunOptions, cache: CacheState, phases: Seq<Phase>)
    requires
        run_phases(options, cache, phases),
        phases.len() > 0,
        phases[0] == Phase::Load,
        phases.last() == Phase::Finished,
    ensures
        phases.contains(Phase::ResolveCache),
        phases.contains(Phase::ValidateExports),
        phases.contains(Phase::RestoreModel) <==> cache == CacheState::Hit,
        phases.contains(Phase::Reason) <==> cache != CacheState::Hit,
        phases.contains(Phase::StoreModel) <==> cache == CacheState::Miss,
        phases.contains(Phase::Export) <==> !options.export_disabled,
        phases.contains(Phase::PrintFacts) <==> options.fact_printing != FactPrinting::Nothing,
        phases.contains(Phase::Trace) <==> options.tracing,
        phases.contains(Phase::Report),
        phases.no_duplicates(),
{
    lemma_occurs(options, cache, phases, Phase::ResolveCache);
    lemma_occurs(options, cache, phases, Phase::ValidateExports);
    lemma_occurs(options, cache, phases, Phase::RestoreModel);
    lemma_occurs(options, cache, phases, Phase::Reason);
    lemma_occurs(options, cache, phases, Phase::StoreModel);
    lemma_occurs(options, cache, phases, Phase::Export);
    lemma_occurs(options, cache, phases, Phase::PrintFacts);
    lemma_occurs(options, cache, phases, Phase::Trace);
    lemma_occurs(options, cache, phases, Phase::Report);
    assert forall|i: int, j: int|
        0 <= i < phases.len() && 0 <= j < phases.len() && i != j implies phases[i] != phases[j] by {
        if i < j {
            lemma_ranks_ascend(options, cache, phases, i, j);
        } else {
            lemma_ranks_ascend(options, cache, phases, j, i);
        }
    }
}

proof fn lemma_occurs(
    options: RunOptions,
    cache: CacheState,
    phases: Seq<Phase>,
    phase: Phase,
)
    requires
        run_phases(options, cache, phases),
        phases.len() > 0,
        phases[0] == Phase::Load,
        phases.last() == Phase::Finished,
        phase != Phase::Load,
    ensures
        phases.contains(phase) <==> wanted(options, cache, phase),
{
    if wanted(options, cache, phase) {
        lemma_wanted_phases_occur(options, cache, phases, phase);
    }
    if phases.contains(phase) {
        let i = choose|i: int| 0 <= i < phases.len() && phases[i] == phase;
        assert(i > 0);
        assert(follows(options, cache, phases[i - 1], phases[i]));
    }
}

/// In whatever run, of two phases that both take place the one that is named first
/// here comes first: loading, looking into the cache, checking exports, restoring,
/// reasoning, storing, exporting, printing facts, explaining, reporting.
pub proof fn lemma_phase_order(
    options: RunOptions,
    cache: CacheState,
    phases: Seq<Phase>,
    earlier: int,
    later: int,
)
    requires
        run_phases(options, cache, phases),
        0 <= earlier < later < phases.len(),
    ensures
        ({
            let order = seq![
                Phase::Load,
                Phase::ResolveCache,
                Phase::ValidateExports,
                Phase::RestoreModel,
                Phase::Reason,
                Phase::StoreModel,
                Phase::Export,
                Phase::PrintFacts,
                Phase::Trace,
                Phase::Report,
                Phase::Finished,
            ];
            exists|i: int, j: int|
                0 <= i < j < order.len() && #[trigger] order[i] == phases[earlier]
                    && #[trigger] order[j] == phases[later]
        }),
{
    let order = seq![
        Phase::Load,
        Phase::ResolveCache,
        Phase::ValidateExports,
        Phase::RestoreModel,
        Phase::Reason,
        Phase::StoreModel,
        Phase::Export,
        Phase::PrintFacts,
        Phase::Trace,
        Phase::Report,
        Phase::Finished,
    ];
    lemma_ranks_ascend(options, cache, phases, earlier, later);
    let i = rank(phases[earlier]) as int;
    let j = rank(phases[later]) as int;
    assert(order[i] == phases[earlier]);
    assert(order[j] == phases[later]);
}

/// What the cache could do changes only whether a model is restored, computed and
/// stored: all that comes behind is the same.
pub proof fn lemma_cache_changes_no_results(
    options: RunOptions,
    cache: CacheState,
    other: CacheState,
    phase: Phase,
)
    requires
        phase != Phase::RestoreModel,
        phase != Phase::Reason,
        phase != Phase::StoreModel,
    ensures
        wanted(options, cache, phase) == wanted(options, other, phase),
{
}

/// Of the bindings of a name the last one counts, and a name that is never bound has
/// no value.
pub proof fn lemma_last_binding_counts(pairs: Seq<(Seq<char>, Seq<char>)>, name: Seq<char>)
    ensures
        match last_value(pairs, name) {
            Some(value) => exists|i: int|
                0 <= i < pairs.len() && (#[trigger] pairs[i]) == (name, value) && forall|j: int|
                    i < j < pairs.len() ==> (#[trigger] pairs[j]).0 != name,
            None => forall|i: int| 0 <= i < pairs.len() ==> (#[trigger] pairs[i]).0 != name,
        },
    decreases pairs.len(),
{
    if pairs.len() > 0 {
        let front = pairs.drop_last();
        let end = pairs.len() - 1;
        if pairs.last().0 == name {
            assert(pairs[end] == (name, pairs.last().1));
        } else {
            lemma_last_binding_counts(front, name);
            if let Some(value) = last_value(front, name) {
                let i = choose|i: int|
                    0 <= i < front.len() && (#[trigger] front[i]) == (name, value) && forall|
                        j: int,
                    |
                        i < j < front.len() ==> (#[trigger] front[j]).0 != name;
                assert(pairs[i] == (name, value));
                assert forall|j: int| i < j < pairs.len() implies (#[trigger] pairs[j]).0
                    != name by {
                    if j < end {
                        assert(front[j] == pairs[j]);
                    }
                }
            } else {
                assert forall|i: int| 0 <= i < pairs.len() implies (#[trigger] pairs[i]).0
                    != name by {
                    if i < end {
                        assert(front[i] == pairs[i]);
                    }
                }
            }
        }
    }
}

/// Facts are printed one behind the other, each followed by the end of its line.
pub proof fn lemma_lines(texts: Seq<Seq<char>>, more: Seq<Seq<char>>)
    ensures
        lines_text(texts + more) == lines_text(texts) + lines_text(more),
        texts.len() == 0 ==> lines_text(texts).len() == 0,
        texts.len() == 1 ==> lines_text(texts) == texts[0].push('\n'),
    decreases more.len(),
{
    if more.len() > 0 {
        lemma_lines(texts, more.drop_last());
        assert((texts + more).drop_last() =~= texts + more.drop_last());
        assert((texts + more).last() == more.last());
        assert(lines_text(texts + more) =~= lines_text(texts) + lines_text(more));
    } else {
        assert(texts + more =~= texts);
        assert(lines_text(texts) + lines_text(more) =~= lines_text(texts));
    }
    if texts.len() == 1 {
        reveal_strlit("\n");
        assert(texts.drop_last() =~= Seq::<Seq<char>>::empty());
        assert(lines_text(texts.drop_last()) =~= Seq::<char>::empty());
        assert(lines_text(texts) =~= texts[0].push('\n'));
    }
}

/// A line of the summary starts with its label and ends with its time, right aligned
/// in the column that all lines have in common.
pub proof fn lemma_summary_line(label: Seq<char>, time: u128, width: nat)
    requires
        label.len() <= 14,
        decimal(time as nat).len() <= width,
    ensures
        ({
            let line = summary_line(label, time, width);
            let digits = decimal(time as nat);
            &&& line.len() == 20 + width
            &&& line.subrange(3, 3 + label.len() as int) == label
            &&& line.subrange(line.len() - 2 - digits.len(), line.len() - 2) == digits
            &&& line.skip(line.len() - 2) == seq!['m', 's']
            &&& forall|i: int|
                0 <= i < 3 || 3 + label.len() <= i < line.len() - 2 - digits.len()
                    ==> #[trigger] line[i] == ' '
        }),
{
    reveal(summary_line);
    reveal_strlit("   ");
    reveal_strlit(" ");
    reveal_strlit("ms");
    let line = summary_line(label, time, width);
    let digits = decimal(time as nat);
    assert(line.subrange(3, 3 + label.len() as int) =~= label);
    assert(line.subrange(line.len() - 2 - digits.len(), line.len() - 2) =~= digits);
    assert(line.skip(line.len() - 2) =~= seq!['m', 's']);
}

/// The summary has a line for the import and one for the reasoning, and one each for
/// the export and the explanation where there were any. The time for loading tables
/// counts as import and not as reasoning, and no time is out of range.
pub proof fn lemma_summary(times: RunTimes, saving: bool, traced: bool) -> (width: nat)
    ensures
        ({
            let lines = summary_lines(times, saving, traced);
            let import = if times.reading + times.loading <= u128::MAX {
                (times.reading + times.loading) as u128
            } else {
                u128::MAX
            };
            let reasoning = if times.execution >= times.loading {
                (times.execution - times.loading) as u128
            } else {
                0u128
            };
            &&& lines.len() == 2 + (if saving {
                1nat
            } else {
                0nat
            }) + (if traced {
                1nat
            } else {
                0nat
            })
            &&& decimal(import as nat).len() + 2 <= width
            &&& decimal(times.reading as nat).len() + 2 <= width
            &&& saving ==> decimal(times.writing as nat).len() + 2 <= width
            &&& traced ==> decimal(times.tracing as nat).len() + 2 <= width
            &&& lines[0] == summary_line("Data import:"@, import, width)
            &&& lines[1] == summary_line("Reasoning:"@, reasoning, width)
            &&& saving ==> lines[2] == summary_line("Data export:"@, times.writing, width)
            &&& traced ==> lines[lines.len() - 1] == summary_line(
                "Tracing:"@,
                times.tracing,
                width,
            )
        }),
{
    let lines = summary_lines(times, saving, traced);
    let import = capped_sum(times.reading, times.loading);
    let writing = if saving {
        times.writing
    } else {
        0
    };
    let tracing = if traced {
        times.tracing
    } else {
        0
    };
    let width = longest(import, times.reading, writing, tracing) + 2;
    assert(lines[0] == summary_line("Data import:"@, import, width));
    assert(lines[1] == summary_line(
        "Reasoning:"@,
        capped_difference(times.execution, times.loading),
        width,
    ));
    if saving {
        assert(lines[2] == summary_line("Data export:"@, times.writing, width));
    }
    if traced {
        assert(lines[lines.len() - 1] == summary_line("Tracing:"@, times.tracing, width));
    }
    width
}

/// The text of some pieces.
pub open spec fn pieces_text(pieces: Seq<(Seq<char>, bool)>) -> Seq<char>
    decreases pieces.len(),
{
    if pieces.len() == 0 {
        Seq::empty()
    } else {
        pieces_text(pieces.drop_last()) + pieces.last().0
    }
}

/// The headline is one sentence, in which the time with its unit and the number of
/// facts stand out and nothing else.
pub proof fn lemma_headline(overall: u128, new_facts: usize)
    ensures
        pieces_text(headline(overall, new_facts)) == "Reasoning completed in "@ + decimal(
            overall as nat,
        ) + "ms"@ + ". Derived "@ + decimal(new_facts as nat) + " facts."@,
        forall|i: int|
            0 <= i < headline(overall, new_facts).len() ==> ((#[trigger] headline(
                overall,
                new_facts,
            )[i]).1 <==> i == 1 || i == 2 || i == 4),
        headline(overall, new_facts)[1].0 == decimal(overall as nat),
        headline(overall, new_facts)[4].0 == decimal(new_facts as nat),
{
    let pieces = headline(overall, new_facts);
    assert(pieces.drop_last() =~= pieces.take(5));
    assert(pieces.take(5).drop_last() =~= pieces.take(4));
    assert(pieces.take(4).drop_last() =~= pieces.take(3));
    assert(pieces.take(3).drop_last() =~= pieces.take(2));
    assert(pieces.take(2).drop_last() =~= pieces.take(1));
    assert(pieces.take(1).drop_last() =~= pieces.take(0));
    assert(pieces_text(pieces.take(0)) =~= Seq::<char>::empty());
    assert(pieces_text(pieces.take(1)) =~= pieces[0].0);
    assert(pieces_text(pieces.take(2)) == pieces[0].0 + pieces[1].0);
    assert(pieces_text(pieces.take(3)) == pieces[0].0 + pieces[1].0 + pieces[2].0);
    assert(pieces_text(pieces.take(4)) == pieces[0].0 + pieces[1].0 + pieces[2].0 + pieces[3].0);
    assert(pieces_text(pieces.take(5)) == pieces[0].0 + pieces[1].0 + pieces[2].0 + pieces[3].0
        + pieces[4].0);
}

/// What a headline says is what its pieces say, in their order.
pub proof fn lemma_pieces_say_their_parts(pieces: Seq<Piece>, place: int)
    ensures
        pieces_view(pieces).len() == pieces.len(),
        0 <= place < pieces.len() ==> pieces_view(pieces)[place].0 == pieces[place].text@,
        0 <= place < pieces.len() ==> pieces_view(pieces)[place].1 == pieces[place].emphasized,
{
}

} // verus!
