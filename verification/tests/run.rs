//! What a run does and reports.

use nemo_store::run::{
    accept_bindings, check_rule_files, collect_bindings, predicates_to_print_facts_for,
    print_facts_for_table, print_finished_message, print_memory_details, print_timing_details,
    process_fails, report_parts, resolve_cache, timer_of, CacheState, FactPrinting,
    InvalidParameter, Phase, PhaseOutcome, ReportParts, Reporting, RuleFileError, Run, RunEnd,
    RunOptions, RunStep, RunTimes, HIT_NOTE, UNKEYED_NOTE,
};

const PLAIN: RunOptions = RunOptions {
    export_disabled: false,
    fact_printing: FactPrinting::Nothing,
    tracing: false,
    reporting: Reporting::Auto,
};

/// The phases of a run in which everything succeeds.
fn phases(options: RunOptions, cache: CacheState) -> Vec<Phase> {
    let mut run = Run::new(options);
    let mut seen = vec![run.phase()];
    while run.phase() != Phase::Finished {
        let outcome = if run.phase() == Phase::ResolveCache {
            PhaseOutcome::CacheResolved(cache)
        } else {
            PhaseOutcome::Succeeded
        };
        match run.proceed(outcome) {
            RunStep::Continue(phase) => seen.push(phase),
            step => panic!("unexpected {step:?}"),
        }
    }
    seen
}

#[test]
fn a_plain_run_reasons_and_exports() {
    assert_eq!(
        phases(PLAIN, CacheState::Unused),
        vec![
            Phase::Load,
            Phase::ResolveCache,
            Phase::ValidateExports,
            Phase::Reason,
            Phase::Export,
            Phase::Report,
            Phase::Finished
        ]
    );
}

#[test]
fn a_hit_restores_instead_of_reasoning() {
    let seen = phases(PLAIN, CacheState::Hit);
    assert!(seen.contains(&Phase::RestoreModel));
    assert!(!seen.contains(&Phase::Reason));
    assert!(!seen.contains(&Phase::StoreModel));
}

#[test]
fn a_miss_stores_the_model_before_exporting() {
    let options = RunOptions {
        fact_printing: FactPrinting::All,
        tracing: true,
        ..PLAIN
    };
    assert_eq!(
        phases(options, CacheState::Miss)[3..],
        [
            Phase::Reason,
            Phase::StoreModel,
            Phase::Export,
            Phase::PrintFacts,
            Phase::Trace,
            Phase::Report,
            Phase::Finished
        ]
    );
}

#[test]
fn only_storing_the_model_may_fail() {
    let mut run = Run::new(PLAIN);
    assert_eq!(run.proceed(PhaseOutcome::Failed), RunStep::Abort);

    let mut run = Run::new(PLAIN);
    run.proceed(PhaseOutcome::Succeeded);
    run.proceed(PhaseOutcome::CacheResolved(CacheState::Miss));
    run.proceed(PhaseOutcome::Succeeded);
    run.proceed(PhaseOutcome::Succeeded);
    assert_eq!(run.phase(), Phase::StoreModel);
    assert_eq!(
        run.proceed(PhaseOutcome::Failed),
        RunStep::ContinueWithWarning(Phase::Export)
    );
    run.proceed(PhaseOutcome::Exported(true));
    assert_eq!(run.phase(), Phase::Report);
    assert!(!run.report().summary);
}

#[test]
fn reports_have_parts() {
    let parts = |summary, times, memory| ReportParts {
        summary,
        times,
        memory,
    };
    assert_eq!(report_parts(Reporting::All, true), parts(true, true, true));
    assert_eq!(
        report_parts(Reporting::Short, true),
        parts(true, false, false)
    );
    assert_eq!(report_parts(Reporting::Time, true), parts(true, true, false));
    assert_eq!(report_parts(Reporting::Mem, true), parts(true, false, true));
    assert_eq!(
        report_parts(Reporting::Nothing, false),
        parts(false, false, false)
    );
    assert_eq!(
        report_parts(Reporting::Auto, false),
        parts(true, false, false)
    );
    assert_eq!(
        report_parts(Reporting::Auto, true),
        parts(false, false, false)
    );
}

#[test]
fn exactly_one_rule_file_is_accepted() {
    assert_eq!(check_rule_files(1), Ok(()));
    assert_eq!(check_rule_files(0), Err(RuleFileError::NoInput));
    assert_eq!(
        check_rule_files(2),
        Err(RuleFileError::MultipleFilesNotImplemented)
    );
}

#[test]
fn the_cache_needs_a_directory_and_a_key() {
    assert_eq!(resolve_cache(false, true, true), (CacheState::Unused, None));
    assert_eq!(
        resolve_cache(true, false, true),
        (CacheState::Unused, Some(UNKEYED_NOTE))
    );
    assert_eq!(
        resolve_cache(true, true, true),
        (CacheState::Hit, Some(HIT_NOTE))
    );
    assert_eq!(resolve_cache(true, true, false), (CacheState::Miss, None));
}

#[test]
fn later_bindings_replace_earlier_ones() {
    let pair = |name: &str, value: &str| (name.to_string(), value.to_string());
    let parameters = collect_bindings(&vec![
        pair("b", "1"),
        pair("a", "2"),
        pair("b", "3"),
        pair("ä", "4"),
    ]);
    assert_eq!(
        parameters.bindings(),
        &vec![pair("a", "2"), pair("b", "3"), pair("ä", "4")]
    );
}

#[test]
fn facts_are_printed_for_the_selected_predicates() {
    let names = |name: &str| vec![name.to_string()];
    let select = |setting| {
        predicates_to_print_facts_for(setting, names("derived"), names("imported"), names("all"))
    };
    assert!(select(FactPrinting::Nothing).is_empty());
    assert_eq!(select(FactPrinting::Idb), names("derived"));
    assert_eq!(select(FactPrinting::Edb), names("imported"));
    assert_eq!(select(FactPrinting::All), names("all"));
    assert!(!FactPrinting::Nothing.is_enabled());
    assert!(FactPrinting::Edb.is_enabled());
    assert_eq!(
        print_facts_for_table(&vec!["p(1)".to_string(), "p(2)".to_string()]),
        "p(1)\np(2)\n"
    );
}

#[test]
fn the_summary_lines_up_its_times() {
    let times = RunTimes {
        overall: 1234,
        reading: 90,
        loading: 20,
        execution: 1000,
        writing: 7,
        tracing: 52500,
    };
    let summary = print_finished_message(times, 13123, true, true);
    let headline: Vec<(&str, bool)> = summary
        .headline
        .iter()
        .map(|piece| (piece.text.as_str(), piece.emphasized))
        .collect();
    assert_eq!(
        headline,
        vec![
            ("Reasoning completed in ", false),
            ("1234", true),
            ("ms", true),
            (". Derived ", false),
            ("13123", true),
            (" facts.", false),
        ]
    );
    assert_eq!(
        summary.lines,
        vec![
            "   Data import:       110ms".to_string(),
            "   Reasoning:         980ms".to_string(),
            "   Data export:         7ms".to_string(),
            "   Tracing:         52500ms".to_string(),
        ]
    );
    for line in &summary.lines {
        assert_eq!(line.len(), 3 + 14 + 1 + 7 + 2);
    }
}

#[test]
fn the_summary_never_overflows() {
    let times = RunTimes {
        overall: 0,
        reading: u128::MAX,
        loading: 1,
        execution: 0,
        writing: 5,
        tracing: 5,
    };
    let summary = print_finished_message(times, 0, false, false);
    assert_eq!(
        summary.lines,
        vec![
            format!("   Data import:     {}ms", u128::MAX),
            format!("   Reasoning:     {:>41}ms", 0),
        ]
    );
}

#[test]
fn details_have_their_headings() {
    assert_eq!(print_timing_details("tree"), "\nTiming report:\n\ntree");
    assert_eq!(print_memory_details("use"), "\nMemory report:\n\nuse");
}

#[test]
fn tracing_is_measured() {
    assert_eq!(timer_of(Phase::Trace), Some("Tracing"));
    assert_eq!(timer_of(Phase::Load), Some("Reading & Preprocessing"));
    assert_eq!(timer_of(Phase::RestoreModel), Some("Reasoning"));
    assert_eq!(
        timer_of(Phase::Export),
        Some("Output & Final Materialization")
    );
    assert_eq!(timer_of(Phase::PrintFacts), Some("Printing Facts"));
    assert_eq!(timer_of(Phase::Report), None);
}

#[test]
fn warnings_do_not_fail_the_process() {
    assert!(!process_fails(RunEnd::Success));
    assert!(!process_fails(RunEnd::ProgramReport { errors: false }));
    assert!(process_fails(RunEnd::ProgramReport { errors: true }));
    assert!(process_fails(RunEnd::Failure));
}

#[test]
fn rejected_bindings_are_reported() {
    let pairs = vec![("importfile".to_string(), "data.nt".to_string())];
    match accept_bindings(&pairs, Some("data.nt".to_string())) {
        Err(error) => assert_eq!(
            error,
            InvalidParameter {
                parameter: "data.nt".to_string()
            }
        ),
        Ok(_) => panic!("the binding was rejected"),
    }
    let accepted = accept_bindings(&pairs, None).expect("nothing was rejected");
    assert_eq!(accepted.bindings(), &pairs);
}
