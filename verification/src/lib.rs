//! A pomodoro session library: schedule building, session records, and a
//! crash-safe append-only journal with a verified line codec.
//!
//! The library is the core logic only: timers, terminal rendering, signal
//! handling and file I/O live in the surrounding application, which feeds
//! plain values in and out of the functions here.
use vstd::prelude::*;

pub mod clock;
pub mod codec;
pub mod config;
pub mod export;
pub mod digits;
pub mod schedule;
pub mod session;
pub mod storage;
pub mod terminal;

pub use config::Config;
pub use schedule::Schedule;
pub use session::Session;
pub use storage::Journal;

verus! {

/// The command-line arguments that matter to the library: every field is an
/// optional override of the corresponding configuration field. `preset` is
/// the path of a preset file, carried as text; the application resolves and
/// loads it.
pub struct CliArgs {
    pub focus: Option<u64>,
    pub short: Option<u64>,
    pub long: Option<u64>,
    pub cycles: Option<u8>,
    pub task: Option<String>,
    pub preset: Option<String>,
}

/// Mathematical model of `CliArgs`: strings become character sequences.
pub struct CliArgsV {
    pub focus: Option<u64>,
    pub short: Option<u64>,
    pub long: Option<u64>,
    pub cycles: Option<u8>,
    pub task: Option<Seq<char>>,
    pub preset: Option<Seq<char>>,
}

impl View for CliArgs {
    type V = CliArgsV;

    open spec fn view(&self) -> CliArgsV {
        CliArgsV {
            focus: self.focus,
            short: self.short,
            long: self.long,
            cycles: self.cycles,
            task: match self.task {
                Some(t) => Some(t@),
                None => None,
            },
            preset: match self.preset {
                Some(p) => Some(p@),
                None => None,
            },
        }
    }
}

} // verus!
