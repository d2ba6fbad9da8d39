use pomodoro_cli::config::Config;
use pomodoro_cli::schedule::Schedule;
use pomodoro_cli::schedule::SegmentKind;

#[test]
fn schedule_length_for_2_cycles() {
    let s = Schedule::from_seconds_for_test(1, 1, 1, 2);
    // 2 focuses + 1 short + 1 long = 4 segments
    assert_eq!(s.segments.len(), 4);
}

#[test]
fn schedule_shape_alternates_and_ends_long() {
    let s = Schedule::from_seconds_for_test(10, 2, 5, 3);
    assert_eq!(s.segments.len(), 6);
    assert!(matches!(s.segments[0].kind, SegmentKind::Focus));
    assert!(matches!(s.segments[1].kind, SegmentKind::ShortBreak));
    assert!(matches!(s.segments[2].kind, SegmentKind::Focus));
    assert!(matches!(s.segments[3].kind, SegmentKind::ShortBreak));
    assert!(matches!(s.segments[4].kind, SegmentKind::Focus));
    assert!(matches!(s.segments[5].kind, SegmentKind::LongBreak));
    assert_eq!(s.segments[0].seconds, 10);
    assert_eq!(s.segments[1].seconds, 2);
    assert_eq!(s.segments[5].seconds, 5);
    assert_eq!(s.segments[0].cycle_index, 1);
    assert_eq!(s.segments[1].cycle_index, 1);
    assert_eq!(s.segments[4].cycle_index, 3);
    assert_eq!(s.segments[5].cycle_index, 3);
}

#[test]
fn single_cycle_is_focus_then_long_break() {
    let s = Schedule::from_seconds_for_test(7, 3, 9, 1);
    assert_eq!(s.segments.len(), 2);
    assert!(matches!(s.segments[0].kind, SegmentKind::Focus));
    assert_eq!(s.segments[0].seconds, 7);
    assert!(matches!(s.segments[1].kind, SegmentKind::LongBreak));
    assert_eq!(s.segments[1].seconds, 9);
}

#[test]
fn from_config_converts_minutes_to_seconds() {
    let mut c = Config::default();
    c.focus_min = 25;
    c.short_min = 5;
    c.long_min = 15;
    c.cycles = 2;
    let s = Schedule::from_config(&c);
    assert_eq!(s.segments.len(), 4);
    assert_eq!(s.segments[0].seconds, 25 * 60);
    assert_eq!(s.segments[1].seconds, 5 * 60);
    assert_eq!(s.segments[2].seconds, 25 * 60);
    assert_eq!(s.segments[3].seconds, 15 * 60);
}

#[test]
fn into_schedule_matches_from_config() {
    let c = Config::default();
    let a = c.clone().into_schedule();
    let b = Schedule::from_config(&c);
    assert_eq!(a.segments.len(), b.segments.len());
    for i in 0..a.segments.len() {
        assert_eq!(a.segments[i].seconds, b.segments[i].seconds);
        assert_eq!(a.segments[i].cycle_index, b.segments[i].cycle_index);
    }
}
