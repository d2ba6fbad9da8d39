//! Session configuration and its validation rules.
//!
//! A configuration is immutable once validated; the schedule builder only
//! ever sees configurations for which `valid` holds.
use vstd::prelude::*;
use crate::CliArgs;
use crate::CliArgsV;
use crate::schedule::Schedule;

verus! {

/// One run's configuration: durations in minutes, the number of focus
/// cycles, and an optional task label.
pub struct Config {
    pub focus_min: u64,
    pub short_min: u64,
    pub long_min: u64,
    pub cycles: u8,
    pub task: Option<String>,
}

/// Mathematical model of `Config`: the task label as a character sequence.
pub struct ConfigV {
    pub focus_min: u64,
    pub short_min: u64,
    pub long_min: u64,
    pub cycles: u8,
    pub task: Option<Seq<char>>,
}

impl ConfigV {
    /// The validation rule: every numeric field in its range, and the task
    /// label, if present, at most 80 characters long.
    pub open spec fn valid(self) -> bool {
        &&& 5 <= self.focus_min <= 120
        &&& 1 <= self.short_min <= 30
        &&& 5 <= self.long_min <= 60
        &&& 1 <= self.cycles <= 12
        &&& (self.task.is_some() ==> self.task.unwrap().len() <= 80)
    }
}

impl View for Config {
    type V = ConfigV;

    open spec fn view(&self) -> ConfigV {
        ConfigV {
            focus_min: self.focus_min,
            short_min: self.short_min,
            long_min: self.long_min,
            cycles: self.cycles,
            task: match self.task {
                Some(t) => Some(t@),
                None => None,
            },
        }
    }
}

impl Clone for Config {
    fn clone(&self) -> (r: Self)
        ensures
            r@ == self@,
    {
        Config {
            focus_min: self.focus_min,
            short_min: self.short_min,
            long_min: self.long_min,
            cycles: self.cycles,
            task: match &self.task {
                Some(t) => Some(t.clone()),
                None => None,
            },
        }
    }
}

/// Why a configuration was rejected: each variant names the first field,
/// in declaration order, whose value is out of range.
#[derive(Clone, Copy, PartialEq, Eq, Structural, Debug)]
pub enum ConfigError {
    FocusOutOfRange,
    ShortBreakOutOfRange,
    LongBreakOutOfRange,
    CyclesOutOfRange,
    TaskTooLong,
}

impl ConfigError {
    /// A human-readable description of the rejection.
    pub fn message(&self) -> (r: &'static str) {
        match self {
            ConfigError::FocusOutOfRange => "focus must be between 5 and 120 minutes",
            ConfigError::ShortBreakOutOfRange => "short break must be between 1 and 30 minutes",
            ConfigError::LongBreakOutOfRange => "long break must be between 5 and 60 minutes",
            ConfigError::CyclesOutOfRange => "cycles must be between 1 and 12",
            ConfigError::TaskTooLong => "task label must be <= 80 characters",
        }
    }
}

/// The exact outcome of validating a configuration: `Ok` iff `c.valid()`,
/// and otherwise the error for the first out-of-range field.
pub open spec fn check_config(c: ConfigV) -> Result<(), ConfigError> {
    if !(5 <= c.focus_min <= 120) {
        Err(ConfigError::FocusOutOfRange)
    } else if !(1 <= c.short_min <= 30) {
        Err(ConfigError::ShortBreakOutOfRange)
    } else if !(5 <= c.long_min <= 60) {
        Err(ConfigError::LongBreakOutOfRange)
    } else if !(1 <= c.cycles <= 12) {
        Err(ConfigError::CyclesOutOfRange)
    } else if c.task.is_some() && c.task.unwrap().len() > 80 {
        Err(ConfigError::TaskTooLong)
    } else {
        Ok(())
    }
}

/// The configuration that `cli` asks for, starting from `base`: each field
/// that the command line sets replaces the field of `base`.
pub open spec fn merged(base: ConfigV, cli: CliArgsV) -> ConfigV {
    ConfigV {
        focus_min: if cli.focus.is_some() { cli.focus.unwrap() } else { base.focus_min },
        short_min: if cli.short.is_some() { cli.short.unwrap() } else { base.short_min },
        long_min: if cli.long.is_some() { cli.long.unwrap() } else { base.long_min },
        cycles: if cli.cycles.is_some() { cli.cycles.unwrap() } else { base.cycles },
        task: if cli.task.is_some() { cli.task } else { base.task },
    }
}

/// The built-in default configuration as a model value.
pub open spec fn default_config() -> ConfigV {
    ConfigV { focus_min: 25, short_min: 5, long_min: 15, cycles: 4, task: None }
}

impl Config {
    /// Checks every field against its allowed range; `Ok` exactly when the
    /// configuration is valid, and otherwise the error of the first field
    /// that is out of range.
    pub fn validate(&self) -> (r: Result<(), ConfigError>)
        ensures
            r == check_config(self@),
            r is Ok <==> self@.valid(),
    {
        if !(5 <= self.focus_min && self.focus_min <= 120) {
            return Err(ConfigError::FocusOutOfRange);
        }
        if !(1 <= self.short_min && self.short_min <= 30) {
            return Err(ConfigError::ShortBreakOutOfRange);
        }
        if !(5 <= self.long_min && self.long_min <= 60) {
            return Err(ConfigError::LongBreakOutOfRange);
        }
        if !(1 <= self.cycles && self.cycles <= 12) {
            return Err(ConfigError::CyclesOutOfRange);
        }
        if let Some(t) = &self.task {
            if t.unicode_len() > 80 {
                return Err(ConfigError::TaskTooLong);
            }
        }
        Ok(())
    }

    /// The built-in default: 25-minute focus, 5-minute short break,
    /// 15-minute long break, 4 cycles, no task label.
    pub fn default() -> (r: Self)
        ensures
            r@ == default_config(),
            r@.valid(),
    {
        Config { focus_min: 25, short_min: 5, long_min: 15, cycles: 4, task: None }
    }

    /// Builds the configuration a run will use: the preset (already loaded
    /// and converted by the caller) or the default as the base, each
    /// command-line override applied on top, and the result validated.
    pub fn from_cli_and_preset(cli: &CliArgs, preset: Option<Config>) -> (r: Result<Config, ConfigError>)
        ensures
            ({
                let base = if preset.is_some() { preset.unwrap()@ } else { default_config() };
                let m = merged(base, cli@);
                match r {
                    Ok(c) => c@ == m && m.valid(),
                    Err(e) => check_config(m) == Err::<(), ConfigError>(e),
                }
            }),
    {
        let mut base = match preset {
            Some(p) => p,
            None => Config::default(),
        };
        if let Some(f) = cli.focus {
            base.focus_min = f;
        }
        if let Some(s) = cli.short {
            base.short_min = s;
        }
        if let Some(l) = cli.long {
            base.long_min = l;
        }
        if let Some(c) = cli.cycles {
            base.cycles = c;
        }
        if let Some(t) = &cli.task {
            base.task = Some(t.clone());
        }
        match base.validate() {
            Ok(()) => Ok(base),
            Err(e) => Err(e),
        }
    }

    /// Turns a validated configuration into its schedule.
    pub fn into_schedule(self) -> (r: Schedule)
        requires
            self@.valid(),
        ensures
            r.segments@ == crate::schedule::schedule_seq(
                (self@.focus_min * 60) as u64,
                (self@.short_min * 60) as u64,
                (self@.long_min * 60) as u64,
                self@.cycles,
            ),
    {
        Schedule::from_config(&self)
    }
}

} // verus!
