use termstat::codec::encode_entry;
use termstat::codec::CommandEntry;
use termstat::codec::ShellKind;
use termstat::queries::cmd_avg_runtime;
use termstat::queries::cmd_runtimes;
use termstat::queries::most_frequent_cmd;
use termstat::queries::most_used_command;
use termstat::duration::DurationMs;
use termstat::duration::MS_PER_DAY;
use termstat::store::Store;
use termstat::sync::sync_rotated;
use termstat::sync::SyncOutcome;

fn entry(ts: u64, cmd: &str, dur: u64) -> CommandEntry {
    CommandEntry {
        timestamp: ts,
        user: String::from("ada"),
        session: String::from("123e4567-e89b-12d3-a456-426614174000"),
        shell_type: ShellKind::Zsh,
        cmd: String::from(cmd),
        cwd: String::from("/home/ada"),
        exit_code: 0,
        duration_ms: dur,
    }
}

fn fresh_store() -> Store {
    Store::open_at(":memory:").expect("in-memory store must open")
}

#[test]
fn sync_inserts_valid_lines_and_counts_malformed() {
    let mut store = fresh_store();
    let l1 = encode_entry(&entry(1000, "KEY=abc git push", 10));
    let l2 = encode_entry(&entry(2000, "ls", 20));
    let content = format!("{}\ngarbage line\n{}\n", l1, l2);
    let outcome = sync_rotated(&mut store, Some(&content));
    match outcome {
        SyncOutcome::Processed { report, delete_rotated } => {
            assert_eq!(report.synced, 2);
            assert_eq!(report.failed, 1);
            assert!(delete_rotated);
        },
        _ => panic!("expected a processed sync"),
    }
    let rows = store.select_all().expect("select must run");
    assert_eq!(rows.len(), 2);
    // persisted command text is post-redaction, never raw
    assert_eq!(rows[0].cmd, "KEY=[REDACTED] git push");
    assert_eq!(rows[1].cmd, "ls");
}

#[test]
fn stream_failure_gains_no_rows_and_orders_a_restore() {
    let mut store = fresh_store();
    let outcome = sync_rotated(&mut store, None);
    assert!(matches!(outcome, SyncOutcome::StreamFailure));
    let rows = store.select_all().expect("select must run");
    assert_eq!(rows.len(), 0);
}

#[test]
fn empty_rotated_content_is_a_clean_no_op() {
    let mut store = fresh_store();
    let outcome = sync_rotated(&mut store, Some(""));
    match outcome {
        SyncOutcome::Processed { report, delete_rotated } => {
            assert_eq!(report.synced, 0);
            assert_eq!(report.failed, 0);
            assert!(delete_rotated);
        },
        _ => panic!("expected a processed sync"),
    }
    assert_eq!(store.select_all().expect("select must run").len(), 0);
}

#[test]
fn empty_store_queries_return_empty_not_error() {
    let store = fresh_store();
    assert_eq!(most_frequent_cmd(&store).expect("no error on empty store").len(), 0);
    let week = DurationMs { ms: 7 * MS_PER_DAY };
    assert_eq!(most_used_command(&store, 10 * MS_PER_DAY, week).expect("no error").len(), 0);
    assert_eq!(cmd_runtimes(&store, 10 * MS_PER_DAY, week).expect("no error").len(), 0);
    assert_eq!(cmd_avg_runtime(&store, 10 * MS_PER_DAY, week).expect("no error").len(), 0);
}

#[test]
fn time_window_includes_and_excludes_by_cutoff() {
    let mut store = fresh_store();
    let now = 10 * MS_PER_DAY;
    store.insert_cmd_entry(&entry(now - 2 * MS_PER_DAY, "cargo test", 50)).expect("insert");
    let one_day = DurationMs { ms: MS_PER_DAY };
    let seven_days = DurationMs { ms: 7 * MS_PER_DAY };
    let narrow = most_used_command(&store, now, one_day).expect("windowed query");
    assert_eq!(narrow.len(), 0);
    let wide = most_used_command(&store, now, seven_days).expect("windowed query");
    assert_eq!(wide.len(), 1);
    assert_eq!(wide[0].command, "cargo test");
    assert_eq!(wide[0].count, 1);
}

#[test]
fn window_past_the_epoch_covers_everything() {
    let mut store = fresh_store();
    store.insert_cmd_entry(&entry(0, "uptime", 5)).expect("insert");
    let week = DurationMs { ms: 7 * MS_PER_DAY };
    // two days after the epoch, a seven-day window reaches past it and
    // still covers a record stamped at the epoch itself
    let hits = most_used_command(&store, 2 * MS_PER_DAY, week).expect("windowed query");
    assert_eq!(hits.len(), 1);
    assert_eq!(hits[0].command, "uptime");
    assert_eq!(hits[0].count, 1);
}

#[test]
fn frequency_ranking_is_descending_and_bounded() {
    let mut store = fresh_store();
    let now = 10 * MS_PER_DAY;
    for (cmd, n) in [("git status", 4u64), ("ls", 2), ("cargo build", 3), ("pwd", 1)] {
        for k in 0..n {
            store.insert_cmd_entry(&entry(now - 1000 - k, cmd, 10)).expect("insert");
        }
    }
    let top = most_frequent_cmd(&store).expect("query");
    assert_eq!(top.len(), 3);
    assert_eq!(top[0].command, "git status");
    assert_eq!(top[0].count, 4);
    assert_eq!(top[1].command, "cargo build");
    assert_eq!(top[1].count, 3);
    assert_eq!(top[2].command, "ls");
    assert_eq!(top[2].count, 2);
}

#[test]
fn runtime_rankings_use_totals_and_means() {
    let mut store = fresh_store();
    let now = 10 * MS_PER_DAY;
    // slow: one long run; busy: many short runs with the bigger total
    store.insert_cmd_entry(&entry(now - 500, "slow", 900)).expect("insert");
    for k in 0..4u64 {
        store.insert_cmd_entry(&entry(now - 400 - k, "busy", 300)).expect("insert");
    }
    let day = DurationMs { ms: MS_PER_DAY };
    let by_total = cmd_runtimes(&store, now, day).expect("query");
    assert_eq!(by_total[0].command, "busy");
    assert_eq!(by_total[0].total_ms, 1200);
    assert_eq!(by_total[0].count, 4);
    assert_eq!(by_total[1].command, "slow");
    assert_eq!(by_total[1].total_ms, 900);
    let by_avg = cmd_avg_runtime(&store, now, day).expect("query");
    assert_eq!(by_avg[0].command, "slow");
    assert_eq!(by_avg[0].avg_ms, 900);
    assert_eq!(by_avg[1].command, "busy");
    assert_eq!(by_avg[1].avg_ms, 300);
}

#[test]
fn sync_then_store_matches_input_except_redaction() {
    let mut store = fresh_store();
    let original = entry(1234, "POSTGRES_PASS=abc123 mysql -p secret", 77);
    let content = format!("{}\n", encode_entry(&original));
    let outcome = sync_rotated(&mut store, Some(&content));
    assert!(matches!(outcome, SyncOutcome::Processed { .. }));
    let rows = store.select_all().expect("select");
    assert_eq!(rows.len(), 1);
    let row = &rows[0];
    assert_eq!(row.timestamp, original.timestamp);
    assert_eq!(row.user, original.user);
    assert_eq!(row.session, original.session);
    assert_eq!(row.shell_type, original.shell_type);
    assert_eq!(row.cwd, original.cwd);
    assert_eq!(row.exit_code, original.exit_code);
    assert_eq!(row.duration_ms, original.duration_ms);
    assert_eq!(row.cmd, "POSTGRES_PASS=[REDACTED] mysql -p [REDACTED]");
}

#[test]
fn opening_an_impossible_path_reports_a_database_error() {
    match Store::open_at("/") {
        Err(e) => assert!(!e.message().is_empty()),
        Ok(_) => panic!("opening a directory as a database must fail"),
    }
}

#[test]
fn schema_is_created_lazily_and_survives_reuse() {
    let mut store = fresh_store();
    assert!(!store.table_exists().expect("lookup"));
    store.insert_cmd_entry(&entry(1, "ls", 1)).expect("first insert creates the table");
    assert!(store.table_exists().expect("lookup"));
    store.insert_cmd_entry(&entry(2, "ls", 1)).expect("second insert");
    assert_eq!(store.select_all().expect("select").len(), 2);
}
