use local_code_intelligence::app::indexing::{
    advance_index, batches, check_is_due, dimension_for, failure_message, index_command,
    index_report, indexed_files, is_stale, is_still_stale, next_manifest, plan_embedding,
    start_index, status, unwatch_report, warning_message, watch_advance, watch_report, watch_scan,
    IndexAction, IndexCommand, IndexEvent, IndexFailure, IndexState, IndexWarning,
    RunningAnalyzers, WatchEvent, WatchState,
};
use local_code_intelligence::chunk::{scan_incremental, source_file, Chunk};
use local_code_intelligence::config::IndexFreshness;
use local_code_intelligence::store::SnapshotInfo;
use local_code_intelligence::table::Table;
use local_code_intelligence::workspace::Workspace;

fn workspace() -> Workspace {
    Workspace {
        id: "id".to_owned(),
        path: "/w".to_owned(),
    }
}

/// Run the commands of a search, taking their outcomes from `events`.
fn run(snapshot: Option<bool>, events: &[bool]) -> (Vec<IndexCommand>, IndexState) {
    let mut state = start_index(snapshot, IndexFreshness::OnSearch);
    let mut commands = vec![];
    for yes in events {
        commands.push(index_command(state));
        let event = if *yes { IndexEvent::Yes } else { IndexEvent::No };
        state = advance_index(state, event);
    }
    (commands, state)
}

fn ready(action: IndexAction) -> IndexState {
    IndexState::Ready {
        action,
        warning: None,
    }
}

#[test]
fn a_first_search_makes_the_index() {
    let (commands, state) = run(None, &[true, false, true]);
    assert_eq!(
        commands,
        vec![
            IndexCommand::TryLock,
            IndexCommand::LookForSnapshot,
            IndexCommand::CreateIndex
        ]
    );
    assert_eq!(state, ready(IndexAction::Created));
    let (_, state) = run(None, &[true, false, false]);
    assert_eq!(
        state,
        IndexState::Failed {
            failure: IndexFailure::CreateFailed
        }
    );
}

#[test]
fn searches_share_the_job_that_makes_the_index() {
    let (commands, state) = run(None, &[false, true, true]);
    assert_eq!(
        commands,
        vec![
            IndexCommand::TryLock,
            IndexCommand::Lock,
            IndexCommand::LookForSnapshot
        ]
    );
    assert_eq!(state, ready(IndexAction::WaitedForExistingJob));
    let (_, state) = run(None, &[false, true, false, true]);
    assert_eq!(
        state,
        IndexState::Failed {
            failure: IndexFailure::SharedFailure
        }
    );
    let (_, state) = run(None, &[false, true, false, false, true]);
    assert_eq!(state, ready(IndexAction::Created));
}

#[test]
fn fresh_snapshots_are_reused() {
    assert_eq!(run(Some(false), &[false]).1, ready(IndexAction::Reused));
    assert_eq!(run(Some(false), &[true, false]).1, ready(IndexAction::Reused));
    assert_eq!(
        start_index(Some(false), IndexFreshness::Manual),
        ready(IndexAction::Reused)
    );
}

#[test]
fn stale_snapshots_are_refreshed() {
    let (commands, state) = run(Some(false), &[true, true, true, true]);
    assert_eq!(
        commands,
        vec![
            IndexCommand::CheckDue,
            IndexCommand::CompareFingerprint,
            IndexCommand::TryLock,
            IndexCommand::RefreshIndex
        ]
    );
    assert_eq!(state, ready(IndexAction::RefreshedIncrementally));
    let (_, state) = run(Some(false), &[true, true, false, true, false]);
    assert_eq!(state, ready(IndexAction::WaitedForExistingJob));
    let (_, state) = run(Some(false), &[true, true, false, true, true, true]);
    assert_eq!(state, ready(IndexAction::RefreshedIncrementally));
}

#[test]
fn a_compatible_snapshot_outlives_a_failed_refresh() {
    let (_, state) = run(Some(false), &[true, true, true, false]);
    assert_eq!(
        state,
        IndexState::Ready {
            action: IndexAction::Reused,
            warning: Some(IndexWarning::RefreshUnavailable)
        }
    );
    let (_, state) = run(Some(false), &[true, true, false, false]);
    assert_eq!(
        state,
        IndexState::Ready {
            action: IndexAction::Reused,
            warning: Some(IndexWarning::TimedOut)
        }
    );
}

#[test]
fn an_incompatible_snapshot_is_never_reused() {
    for freshness in [IndexFreshness::Manual, IndexFreshness::Watch] {
        assert_eq!(
            start_index(Some(true), freshness),
            IndexState::Failed {
                failure: IndexFailure::ConfigurationChanged
            }
        );
    }
    assert_eq!(
        run(Some(true), &[false, true, false]).1,
        IndexState::Failed {
            failure: IndexFailure::RefreshFailed
        }
    );
    assert_eq!(
        run(Some(true), &[true, false, false, false]).1,
        IndexState::Failed {
            failure: IndexFailure::RefreshBusy
        }
    );
}

#[test]
fn what_is_over_stays_over() {
    let over = ready(IndexAction::Reused);
    assert_eq!(index_command(over), IndexCommand::Read);
    assert_eq!(advance_index(over, IndexEvent::No), over);
    let failed = IndexState::Failed {
        failure: IndexFailure::RefreshBusy,
    };
    assert_eq!(index_command(failed), IndexCommand::Fail);
    assert_eq!(advance_index(failed, IndexEvent::Yes), failed);
}

#[test]
fn failures_and_warnings_have_texts() {
    assert_eq!(failure_message(IndexFailure::CreateFailed, "cause"), "cause");
    assert_eq!(
        failure_message(IndexFailure::SharedFailure, "cause"),
        "indexing failed while waiting for the in-progress index job: cause"
    );
    assert_eq!(
        failure_message(IndexFailure::ConfigurationChanged, "cause"),
        "embedding configuration changed; reindex workspace"
    );
    assert!(failure_message(IndexFailure::RefreshFailed, "cause").ends_with("searched: cause"));
    assert!(failure_message(IndexFailure::RefreshBusy, "").ends_with("already in progress"));
    assert_eq!(
        warning_message(IndexWarning::TimedOut, "", 30),
        "timed out after 30s waiting for an in-progress index refresh; reusing previous snapshot"
    );
    assert_eq!(
        warning_message(IndexWarning::RefreshUnavailable, "cause", 30),
        "index refresh unavailable; reusing previous snapshot: cause"
    );
    assert_eq!(
        IndexAction::RefreshedIncrementally.as_str(),
        "refreshed_incrementally"
    );
}

#[test]
fn staleness_checks_are_spaced() {
    assert!(check_is_due(None, 30));
    assert!(!check_is_due(Some(29_999_999_999), 30));
    assert!(check_is_due(Some(30_000_000_000), 30));
    assert!(check_is_due(Some(0), 0));
}

#[test]
fn snapshots_are_compared_by_fingerprint_and_identity() {
    assert!(is_stale("", ""));
    assert!(is_stale("a", "b"));
    assert!(!is_stale("a", "a"));
    assert!(is_still_stale(Some("old"), "new", "a", Some("a")));
    assert!(is_still_stale(Some("new"), "new", "a", Some("b")));
    assert!(!is_still_stale(Some("new"), "new", "a", Some("a")));
    assert!(!is_still_stale(None, "new", "a", None));
}

fn chunk(path: &str, content: &str) -> Chunk {
    Chunk {
        relative_file_path: path.to_owned(),
        language: "rust".to_owned(),
        start_line: 1,
        end_line: 1,
        code: content.to_owned(),
        content_hash: content.to_owned(),
    }
}

#[test]
fn each_new_content_is_embedded_once() {
    let chunks = [
        chunk("a.rs", "known"),
        chunk("b.rs", "new"),
        chunk("c.rs", "new"),
        chunk("d.rs", "newer"),
        chunk("e.rs", "known"),
    ];
    let cached = ["other".to_owned(), "known".to_owned()];
    let plan = plan_embedding(&chunks, &cached);
    assert_eq!(plan.reused_chunks, 2);
    assert_eq!(plan.missing, vec![1, 3]);
    assert_eq!(plan.slots, vec![1, 2, 2, 3, 1]);
}

#[test]
fn batches_cover_everything() {
    assert_eq!(batches(5, 2), vec![(0, 2), (2, 4), (4, 5)]);
    assert_eq!(batches(4, 2), vec![(0, 2), (2, 4)]);
    assert!(batches(0, 2).is_empty());
}

#[test]
fn dimensions_come_from_vectors_first() {
    assert_eq!(dimension_for(Some(3), Some(4)), 3);
    assert_eq!(dimension_for(None, Some(4)), 4);
    assert_eq!(dimension_for(None, None), 1);
}

#[test]
fn runs_are_reported() {
    let files = vec![
        source_file("b.rs", "fn b() {}".to_owned()).unwrap(),
        source_file("a.rs", "fn a() {}".to_owned()).unwrap(),
    ];
    let found = scan_incremental(files, &Table::new()).unwrap();
    let fingerprint = found.fingerprint.clone();
    let plan = plan_embedding(&found.chunks, &[]);
    let report = index_report(&workspace(), &found, &plan, 9);
    assert_eq!(report.files, 2);
    assert_eq!(report.chunks, 2);
    assert_eq!(report.embedded_chunks, 2);
    assert_eq!(report.reused_chunks, 0);
    assert_eq!(report.parsed_files, 2);
    assert_eq!(report.total_nanoseconds, 9);
    let manifest = next_manifest(&workspace(), found);
    assert_eq!(manifest.workspace_path, "/w");
    assert_eq!(manifest.fingerprint, fingerprint);
    let listed = indexed_files(&manifest.files);
    assert_eq!(listed[0].relative_file_path, "a.rs");
    assert_eq!(listed[1].relative_file_path, "b.rs");
    assert_eq!(listed[1].chunks, 1);
    assert_eq!(listed[1].language, "rust");
}

#[test]
fn the_state_of_a_workspace_is_reported() {
    let running = RunningAnalyzers {
        rust: true,
        csharp: false,
        typescript: false,
        python: true,
    };
    let snapshot = |dimension: usize| {
        Some(SnapshotInfo {
            identity: "id".to_owned(),
            dimension,
            indexed_at: "12".to_owned(),
        })
    };
    let report = status(&workspace(), snapshot(4), 3, true, false, running, "a", "a", "id");
    assert!(report.indexed && report.indexing && report.compatible && !report.stale);
    assert!(report.analyzer_running && report.python_analyzer_running);
    assert_eq!(report.embedding_dimension, Some(4));
    assert_eq!(report.indexed_at_unix_seconds.as_deref(), Some("12"));
    let report = status(&workspace(), snapshot(4), 0, false, true, running, "a", "b", "other");
    assert!(!report.compatible && report.stale && report.watched);
    assert_eq!(report.embedding_dimension, None);
    let report = status(&workspace(), None, 0, false, false, running, "", "", "id");
    assert!(!report.indexed && !report.stale && !report.compatible);
    assert_eq!(report.indexed_at_unix_seconds, None);
}

#[test]
fn watches_index_behind_a_change_that_settled() {
    let mut state = WatchState::Waiting;
    for event in [
        WatchEvent::Elapsed,
        watch_scan("a", "a"),
        WatchEvent::Elapsed,
        WatchEvent::ScanFailed,
        WatchEvent::Elapsed,
        watch_scan("a", "b"),
    ] {
        state = watch_advance(state, event);
    }
    assert_eq!(state, WatchState::Debouncing);
    assert_eq!(watch_advance(state, WatchEvent::Cancelled), WatchState::Stopped);
    state = watch_advance(state, WatchEvent::Elapsed);
    assert_eq!(state, WatchState::Indexing);
    state = watch_advance(state, WatchEvent::Indexed);
    assert_eq!(state, WatchState::Waiting);
    let stopped = watch_advance(state, WatchEvent::Cancelled);
    assert_eq!(watch_advance(stopped, WatchEvent::Elapsed), WatchState::Stopped);
}

#[test]
fn watch_requests_are_reported() {
    let first = watch_report(&workspace(), false);
    assert!(first.watched && !first.already_in_requested_state);
    assert!(watch_report(&workspace(), true).already_in_requested_state);
    let ended = unwatch_report(&workspace(), true);
    assert!(!ended.watched && !ended.already_in_requested_state);
    assert!(unwatch_report(&workspace(), false).already_in_requested_state);
}
