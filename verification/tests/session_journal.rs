use pomodoro_cli::codec::decode_entry;
use pomodoro_cli::codec::encode_entry;
use pomodoro_cli::config::Config;
use pomodoro_cli::schedule::Schedule;
use pomodoro_cli::session::Session;
use pomodoro_cli::storage::Journal;
use pomodoro_cli::storage::JournalError;
use pomodoro_cli::storage::SessionEntry;
use pomodoro_cli::storage::SessionState;

fn test_config() -> Config {
    let mut c = Config::default();
    c.cycles = 2;
    c.task = Some("write tests".to_string());
    c
}

#[test]
fn short_run_to_completion_journals_a_completed_record() {
    // four one-second segments: 4 seconds of wait time in total
    let schedule = Schedule::from_seconds_for_test(1, 1, 1, 2);
    assert_eq!(schedule.segments.len(), 4);
    let total: u64 = schedule.segments.iter().map(|s| s.seconds).sum();
    assert_eq!(total, 4);

    let cfg = test_config();
    let mut journal = Journal::new();
    let mut session = Session::start(&cfg, 1000);
    let mut now = 1000;
    for seg in &schedule.segments {
        now += seg.seconds as i64;
        session.complete_segment(&mut journal, seg, now);
    }
    let record = session.finish(&mut journal, now);
    assert_eq!(record.state, SessionState::Completed);
    assert!(record.end.is_some());
    assert_eq!(record.segments.len(), 4);

    // the journal's last line is the terminal snapshot
    assert_eq!(journal.lines.len(), 5);
    let last = decode_entry(journal.lines.last().unwrap()).unwrap();
    assert_eq!(last.state, SessionState::Completed);
    assert_eq!(last.segments.len(), 4);
    assert_eq!(last.end, Some(now));
    assert_eq!(last.start, 1000);
}

#[test]
fn killing_after_k_segments_leaves_an_ongoing_record_of_length_k() {
    let schedule = Schedule::from_seconds_for_test(1, 1, 1, 3);
    let cfg = test_config();
    let mut journal = Journal::new();
    let mut session = Session::start(&cfg, 50);
    // run only 2 of the 6 segments, then stop abruptly
    for k in 0..2 {
        session.complete_segment(&mut journal, &schedule.segments[k], 51 + k as i64);
    }
    assert_eq!(journal.lines.len(), 2);
    let last = decode_entry(journal.lines.last().unwrap()).unwrap();
    assert_eq!(last.state, SessionState::Ongoing);
    assert_eq!(last.segments.len(), 2);
    assert!(last.end.is_none());
}

#[test]
fn interrupt_mid_segment_writes_exactly_one_terminal_record() {
    let schedule = Schedule::from_seconds_for_test(1, 1, 1, 2);
    let cfg = test_config();
    let mut journal = Journal::new();
    let mut session = Session::start(&cfg, 10);
    session.complete_segment(&mut journal, &schedule.segments[0], 11);
    let record = session.interrupt(&mut journal, 12);
    assert_eq!(record.state, SessionState::Interrupted);
    // the bridge's overwrite-style save leaves one terminal snapshot
    assert_eq!(journal.lines.len(), 1);
    let last = decode_entry(&journal.lines[0]).unwrap();
    assert_eq!(last.state, SessionState::Interrupted);
    assert_eq!(last.end, Some(12));
    assert_eq!(last.segments.len(), 1);
}

#[test]
fn segment_log_lines_describe_label_and_duration() {
    let schedule = Schedule::from_seconds_for_test(60, 2, 5, 2);
    let cfg = test_config();
    let mut journal = Journal::new();
    let mut session = Session::start(&cfg, 0);
    session.complete_segment(&mut journal, &schedule.segments[0], 60);
    session.complete_segment(&mut journal, &schedule.segments[1], 62);
    session.complete_segment(&mut journal, &schedule.segments[3], 67);
    assert_eq!(session.entry.segments[0], "FOCUS:60s");
    assert_eq!(session.entry.segments[1], "BREAK:2s");
    assert_eq!(session.entry.segments[2], "LONG BREAK:5s");
}

#[test]
fn codec_round_trips_awkward_task_labels() {
    let mut cfg = Config::default();
    cfg.task = Some("50% of a|b\nand \r %p".to_string());
    let mut entry = SessionEntry::new(&cfg, -123);
    entry.segments.push("FOCUS:1s".to_string());
    entry.segments.push("odd % | entry".to_string());
    entry.end = Some(456);
    let line = encode_entry(&entry);
    assert!(!line.contains('\n'));
    let back = decode_entry(&line).unwrap();
    assert_eq!(back.start, -123);
    assert_eq!(back.end, Some(456));
    assert_eq!(back.cfg.task.as_deref(), Some("50% of a|b\nand \r %p"));
    assert_eq!(back.segments, vec!["FOCUS:1s", "odd % | entry"]);
    assert_eq!(back.state, SessionState::Ongoing);
    assert_eq!(back.last_updated, -123);
}

#[test]
fn corrupt_line_aborts_parse_with_its_index() {
    let cfg = Config::default();
    let entry = SessionEntry::new(&cfg, 7);
    let mut journal = Journal::new();
    journal.append(&entry);
    journal.lines.push("not a record".to_string());
    journal.append(&entry);
    match journal.parse_all() {
        Err(JournalError::CorruptLine(i)) => assert_eq!(i, 1),
        other => panic!("expected a corrupt line, got {:?}", other.is_ok()),
    }
}

#[test]
fn parse_all_returns_every_snapshot_in_order() {
    let cfg = test_config();
    let schedule = Schedule::from_seconds_for_test(1, 1, 1, 2);
    let mut journal = Journal::new();
    let mut session = Session::start(&cfg, 0);
    for (k, seg) in schedule.segments.iter().enumerate() {
        session.complete_segment(&mut journal, seg, k as i64 + 1);
    }
    session.finish(&mut journal, 9);
    let all = journal.parse_all().unwrap();
    assert_eq!(all.len(), 5);
    for (k, e) in all.iter().take(4).enumerate() {
        assert_eq!(e.state, SessionState::Ongoing);
        assert_eq!(e.segments.len(), k + 1);
    }
    assert_eq!(all[4].state, SessionState::Completed);
}
