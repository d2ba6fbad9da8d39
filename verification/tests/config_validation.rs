use pomodoro_cli::config::Config;
use pomodoro_cli::config::ConfigError;

#[test]
fn config_accepts_defaults() {
    let c = Config::default();
    assert!(c.validate().is_ok());
}

#[test]
fn config_rejects_too_short_focus() {
    let mut c = Config::default();
    c.focus_min = 1;
    assert!(c.validate().is_err());
}

#[test]
fn focus_below_floor_never_reaches_the_schedule_builder() {
    let mut c = Config::default();
    c.focus_min = 1;
    assert_eq!(c.validate(), Err(ConfigError::FocusOutOfRange));
}

#[test]
fn each_field_reports_its_own_error() {
    let mut c = Config::default();
    c.focus_min = 121;
    assert_eq!(c.validate(), Err(ConfigError::FocusOutOfRange));

    let mut c = Config::default();
    c.short_min = 0;
    assert_eq!(c.validate(), Err(ConfigError::ShortBreakOutOfRange));

    let mut c = Config::default();
    c.short_min = 31;
    assert_eq!(c.validate(), Err(ConfigError::ShortBreakOutOfRange));

    let mut c = Config::default();
    c.long_min = 4;
    assert_eq!(c.validate(), Err(ConfigError::LongBreakOutOfRange));

    let mut c = Config::default();
    c.long_min = 61;
    assert_eq!(c.validate(), Err(ConfigError::LongBreakOutOfRange));

    let mut c = Config::default();
    c.cycles = 0;
    assert_eq!(c.validate(), Err(ConfigError::CyclesOutOfRange));

    let mut c = Config::default();
    c.cycles = 13;
    assert_eq!(c.validate(), Err(ConfigError::CyclesOutOfRange));

    let mut c = Config::default();
    c.task = Some("x".repeat(81));
    assert_eq!(c.validate(), Err(ConfigError::TaskTooLong));

    let mut c = Config::default();
    c.task = Some("x".repeat(80));
    assert!(c.validate().is_ok());
}

#[test]
fn boundary_values_are_accepted() {
    let mut c = Config::default();
    c.focus_min = 5;
    c.short_min = 1;
    c.long_min = 5;
    c.cycles = 1;
    assert!(c.validate().is_ok());
    c.focus_min = 120;
    c.short_min = 30;
    c.long_min = 60;
    c.cycles = 12;
    assert!(c.validate().is_ok());
}

#[test]
fn error_messages_name_the_field() {
    assert_eq!(
        ConfigError::FocusOutOfRange.message(),
        "focus must be between 5 and 120 minutes"
    );
    assert_eq!(
        ConfigError::TaskTooLong.message(),
        "task label must be <= 80 characters"
    );
}
