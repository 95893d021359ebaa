//! Splitting explanations across workers.

use nemo_store::explain::{
    conclude_controller, conclude_worker, list_worker_arguments, plan_controller, split_rows,
    ControllerPlan, ControllerResult, DocumentWrite, ShardOutcome, WorkerArgument, WorkerError,
};

fn text(value: &str) -> WorkerArgument {
    WorkerArgument::Text(value.to_string())
}

#[test]
fn splits_evenly_when_it_divides() {
    assert_eq!(split_rows(8, 4), vec![(0, 2), (2, 2), (4, 2), (6, 2)]);
}

#[test]
fn spreads_the_remainder_rather_than_piling_it_on_one_shard() {
    // 10 rows over 4 shards: two shards of 3, two of 2. Appending the
    // remainder to the last shard instead would make it 50% larger than its
    // peers, and the run is only as fast as its slowest shard.
    assert_eq!(split_rows(10, 4), vec![(0, 3), (3, 3), (6, 2), (8, 2)]);
}

#[test]
fn ranges_are_contiguous_and_cover_everything() {
    for total in [1usize, 2, 7, 100, 1013] {
        for shards in [1usize, 2, 3, 8, 16, 64] {
            let ranges = split_rows(total, shards);

            let mut next = 0;
            for (start, count) in &ranges {
                assert_eq!(
                    *start, next,
                    "gap or overlap at {start} for {total}/{shards}"
                );
                assert!(*count > 0, "empty shard for {total}/{shards}");
                next += count;
            }

            assert_eq!(next, total, "shards must cover every row");
        }
    }
}

#[test]
fn never_produces_more_shards_than_rows() {
    // Otherwise a worker would be spawned with nothing to do, paying process
    // startup and a model restore to explain zero facts.
    assert_eq!(split_rows(3, 16), vec![(0, 1), (1, 1), (2, 1)]);
}

#[test]
fn nothing_to_do_yields_no_shards() {
    assert!(split_rows(0, 8).is_empty());
    assert!(split_rows(100, 0).is_empty());
}

#[test]
fn splitting_the_largest_number_of_rows_does_not_overflow() {
    let ranges = split_rows(usize::MAX, 3);
    assert_eq!(ranges.len(), 3);
    let (start, count) = ranges[2];
    assert_eq!(start + count, usize::MAX);
}

#[test]
fn workers_are_told_their_rows_and_the_bindings_of_the_run() {
    let parameters = vec![("importfile".to_string(), "\"data.nt\"".to_string())];
    assert_eq!(
        list_worker_arguments("mapping", (3, 4), true, &parameters),
        vec![
            WorkerArgument::Program,
            text("--explain"),
            text("mapping"),
            text("--explain-range"),
            text("3:4"),
            text("--explain-output"),
            WorkerArgument::Output,
            text("--cache-dir"),
            WorkerArgument::CacheDirectory,
            text("--export"),
            text("none"),
            text("--report"),
            text("none"),
            text("--import-dir"),
            WorkerArgument::ImportDirectory,
            text("--param"),
            text("importfile=\"data.nt\""),
        ]
    );
    assert_eq!(
        list_worker_arguments("mapping", (0, 1), false, &Vec::new()).len(),
        13
    );
}

#[test]
fn the_controller_plans_one_document_per_shard() {
    match plan_controller("mapping", 10, 4, false, &Vec::new()) {
        ControllerPlan::Run { note, shards } => {
            assert_eq!(
                note,
                "note: explaining 10 facts of mapping across 4 worker(s)"
            );
            let files: Vec<&str> = shards.iter().map(|shard| shard.file.as_str()).collect();
            assert_eq!(
                files,
                vec![
                    "shard-0000.json",
                    "shard-0001.json",
                    "shard-0002.json",
                    "shard-0003.json"
                ]
            );
            assert_eq!(shards[1].range, (3, 3));
            assert_eq!(shards[1].index, 1);
        }
        ControllerPlan::Nothing { .. } => panic!("there is something to explain"),
    }
}

#[test]
fn the_controller_notes_when_there_is_nothing_to_explain() {
    assert!(matches!(
        plan_controller("mapping", 0, 4, false, &Vec::new()),
        ControllerPlan::Nothing { note } if note == "note: mapping has no facts to explain"
    ));
}

fn outcome(index: usize, succeeded: bool) -> ShardOutcome {
    ShardOutcome {
        index,
        range: (index * 5, 5),
        output: format!("out/shard-{index:04}.json"),
        succeeded,
    }
}

#[test]
fn a_missing_shard_fails_the_explanation() {
    match conclude_controller(
        &vec![outcome(0, true), outcome(1, false), outcome(2, true)],
        15,
        "out",
    ) {
        ControllerResult::Failed {
            failed,
            total,
            messages,
        } => {
            assert_eq!((failed, total), (1, 3));
            assert_eq!(
                messages,
                vec![
                    "error: shard 1 (rows 5..10) failed; out/shard-0001.json is missing or incomplete"
                        .to_string()
                ]
            );
        }
        ControllerResult::Complete { .. } => panic!("a shard failed"),
    }
}

#[test]
fn complete_explanations_report_their_facts() {
    assert!(matches!(
        conclude_controller(&vec![outcome(0, true), outcome(1, true)], 10, "out"),
        ControllerResult::Complete { facts: 10, note } if note == "note: wrote 2 shard(s) to out"
    ));
}

#[test]
fn a_worker_needs_a_destination_and_a_complete_document() {
    assert!(matches!(
        conclude_worker(None, DocumentWrite::Written),
        Err(WorkerError::MissingExplainOutput)
    ));
    assert!(matches!(
        conclude_worker(Some("a.json"), DocumentWrite::NotCreated),
        Err(WorkerError::Unwritable)
    ));
    assert!(matches!(
        conclude_worker(Some("a.json"), DocumentWrite::NotSerialized),
        Err(WorkerError::SerializationError { filename }) if filename == "a.json"
    ));
    assert!(conclude_worker(Some("a.json"), DocumentWrite::Written).is_ok());
}
