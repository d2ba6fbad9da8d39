use pomodoro_cli::CliArgs;
use pomodoro_cli::config::Config;
use pomodoro_cli::config::ConfigError;
use pomodoro_cli::schedule::Schedule;
use pomodoro_cli::session::Session;
use pomodoro_cli::storage::Journal;
use pomodoro_cli::storage::journal_file_name;
use pomodoro_cli::terminal::Terminal;

fn journal_with_two_records() -> Journal {
    let mut cfg = Config::default();
    cfg.cycles = 1;
    cfg.task = Some("review, then rest".to_string());
    let schedule = Schedule::from_seconds_for_test(2, 1, 3, 1);
    let mut journal = Journal::new();
    let mut session = Session::start(&cfg, 100);
    for (k, seg) in schedule.segments.iter().enumerate() {
        session.complete_segment(&mut journal, seg, 101 + k as i64);
    }
    session.finish(&mut journal, 110);
    journal
}

#[test]
fn exporting_twice_is_byte_identical() {
    let journal = journal_with_two_records();
    let md1 = journal.export_markdown().unwrap();
    let md2 = journal.export_markdown().unwrap();
    assert_eq!(md1, md2);
    let csv1 = journal.export_csv().unwrap();
    let csv2 = journal.export_csv().unwrap();
    assert_eq!(csv1, csv2);
}

#[test]
fn markdown_renders_every_record() {
    let journal = journal_with_two_records();
    let md = journal.export_markdown().unwrap();
    assert!(md.starts_with("# Pomodoro journal (today)\n\n"));
    assert_eq!(md.lines().filter(|l| l.starts_with("- start: ")).count(), 3);
    assert!(md.contains("state: Completed"));
    assert!(md.contains("FOCUS:2s | LONG BREAK:3s"));
}

#[test]
fn csv_renders_header_and_sanitized_cells() {
    let journal = journal_with_two_records();
    let csv = journal.export_csv().unwrap();
    let mut lines = csv.lines();
    assert_eq!(lines.next(), Some("start,end,state,task,segments"));
    let first = lines.next().unwrap();
    // the comma in the task label became a space
    assert!(first.contains("review  then rest"));
    assert!(first.starts_with("100,,Ongoing,"));
    let last = csv.lines().last().unwrap();
    assert!(last.starts_with("100,110,Completed,"));
}

#[test]
fn corrupt_line_aborts_export() {
    let mut journal = journal_with_two_records();
    journal.lines.insert(0, "garbage".to_string());
    assert!(journal.export_markdown().is_err());
    assert!(journal.export_csv().is_err());
}

#[test]
fn cli_overrides_apply_over_the_default() {
    let cli = CliArgs {
        focus: Some(50),
        short: None,
        long: Some(20),
        cycles: Some(2),
        task: Some("deep work".to_string()),
        preset: None,
    };
    let cfg = Config::from_cli_and_preset(&cli, None).unwrap();
    assert_eq!(cfg.focus_min, 50);
    assert_eq!(cfg.short_min, 5);
    assert_eq!(cfg.long_min, 20);
    assert_eq!(cfg.cycles, 2);
    assert_eq!(cfg.task.as_deref(), Some("deep work"));
}

#[test]
fn cli_overrides_apply_over_a_preset() {
    let mut preset = Config::default();
    preset.focus_min = 45;
    preset.cycles = 6;
    let cli = CliArgs {
        focus: None,
        short: Some(10),
        long: None,
        cycles: None,
        task: None,
        preset: Some("presets/deep.json".to_string()),
    };
    let cfg = Config::from_cli_and_preset(&cli, Some(preset)).unwrap();
    assert_eq!(cfg.focus_min, 45);
    assert_eq!(cfg.short_min, 10);
    assert_eq!(cfg.cycles, 6);
}

#[test]
fn cli_overrides_are_validated() {
    let cli = CliArgs {
        focus: Some(2),
        short: None,
        long: None,
        cycles: None,
        task: None,
        preset: None,
    };
    match Config::from_cli_and_preset(&cli, None) {
        Err(e) => assert_eq!(e, ConfigError::FocusOutOfRange),
        Ok(_) => panic!("an out-of-range override must be rejected"),
    }
}

#[test]
fn journal_file_names_are_zero_padded() {
    assert_eq!(journal_file_name(2025, 3, 7), "journal-2025-03-07.jsonl");
    assert_eq!(journal_file_name(999, 12, 31), "journal-0999-12-31.jsonl");
}

#[test]
fn terminal_prefix_shows_label_and_task() {
    let t = Terminal::new(Some("thesis".to_string()));
    assert_eq!(t.prefix("FOCUS"), "[FOCUS] thesis");
    let bare = Terminal::new(None);
    assert_eq!(bare.prefix("BREAK"), "[BREAK] ");
}
