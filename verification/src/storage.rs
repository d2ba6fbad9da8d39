//! Session records and the per-day journal, modelled as the sequence of
//! lines of the day's file. The surrounding application mirrors the lines
//! to disk; everything about their content is decided and proved here.
use vstd::prelude::*;
use crate::config::Config;
use crate::config::ConfigV;
use crate::digits::pow10;

verus! {

/// The lifecycle state of a session record: exactly one terminal state is
/// ever reached, `Completed` by the normal flow or `Interrupted` by the
/// interrupt bridge.
#[derive(Clone, Copy, PartialEq, Eq, Structural, Debug)]
pub enum SessionState {
    Ongoing,
    Completed,
    Interrupted,
}

/// The durable representation of one run: timestamps are seconds since the
/// Unix epoch, and `segments` is the log of completed segments, one
/// descriptive string per segment, in schedule order.
pub struct SessionEntry {
    pub start: i64,
    pub end: Option<i64>,
    pub cfg: Config,
    pub state: SessionState,
    pub segments: Vec<String>,
    pub last_updated: i64,
}

/// Mathematical model of a session record.
#[verifier::ext_equal]
pub struct EntryV {
    pub start: int,
    pub end: Option<int>,
    pub cfg: ConfigV,
    pub state: SessionState,
    pub segments: Seq<Seq<char>>,
    pub last_updated: int,
}

impl View for SessionEntry {
    type V = EntryV;

    open spec fn view(&self) -> EntryV {
        EntryV {
            start: self.start as int,
            end: match self.end {
                Some(t) => Some(t as int),
                None => None,
            },
            cfg: self.cfg@,
            state: self.state,
            segments: self.segments@.map_values(|s: String| s@),
            last_updated: self.last_updated as int,
        }
    }
}

/// The records whose journal line decodes back to the record itself: the
/// timestamps fit a signed machine word (they always do for values that
/// exist at runtime) and every count and duration is small enough for a
/// 19-digit length field. Every record the library builds satisfies this.
pub open spec fn entry_encodable(e: EntryV) -> bool {
    &&& i64::MIN <= e.start <= i64::MAX
    &&& (e.end is Some ==> i64::MIN <= e.end.unwrap() <= i64::MAX)
    &&& i64::MIN <= e.last_updated <= i64::MAX
    &&& e.cfg.focus_min < pow10(19)
    &&& e.cfg.short_min < pow10(19)
    &&& e.cfg.long_min < pow10(19)
    &&& (e.cfg.task is Some ==> e.cfg.task.unwrap().len() < pow10(18))
    &&& e.segments.len() < pow10(19)
    &&& (forall|i: int| 0 <= i < e.segments.len() ==> (#[trigger] e.segments[i]).len() < pow10(18))
}

/// Clones a vector of strings, keeping its contents.
fn clone_strings(v: &Vec<String>) -> (r: Vec<String>)
    ensures
        r@.map_values(|s: String| s@) == v@.map_values(|s: String| s@),
{
    let mut r: Vec<String> = Vec::new();
    let mut i: usize = 0;
    while i < v.len()
        invariant
            0 <= i <= v@.len(),
            r@.len() == i,
            forall|k: int| 0 <= k < i ==> (#[trigger] r@[k])@ == v@[k]@,
        decreases v@.len() - i,
    {
        r.push(v[i].clone());
        i = i + 1;
    }
    proof {
        assert(r@.map_values(|s: String| s@) =~= v@.map_values(|s: String| s@));
    }
    r
}

impl Clone for SessionEntry {
    fn clone(&self) -> (r: Self)
        ensures
            r@ == self@,
    {
        let r = SessionEntry {
            start: self.start,
            end: self.end,
            cfg: self.cfg.clone(),
            state: self.state,
            segments: clone_strings(&self.segments),
            last_updated: self.last_updated,
        };
        proof {
            assert(r@ =~= self@);
        }
        r
    }
}

impl SessionEntry {
    /// A fresh record for a run starting at `now`: ongoing, with an empty
    /// segment log and a snapshot of the configuration.
    pub fn new(cfg: &Config, now: i64) -> (r: Self)
        ensures
            r@ == (EntryV {
                start: now as int,
                end: None,
                cfg: cfg@,
                state: SessionState::Ongoing,
                segments: Seq::empty(),
                last_updated: now as int,
            }),
    {
        let r = SessionEntry {
            start: now,
            end: None,
            cfg: cfg.clone(),
            state: SessionState::Ongoing,
            segments: Vec::new(),
            last_updated: now,
        };
        proof {
            assert(r@.segments =~= Seq::<Seq<char>>::empty());
            assert(r@ =~= (EntryV {
                start: now as int,
                end: None,
                cfg: cfg@,
                state: SessionState::Ongoing,
                segments: Seq::empty(),
                last_updated: now as int,
            }));
        }
        r
    }
}

} // verus!

use crate::codec::encode_entry;
use crate::codec::encode_entry_v;
use crate::codec::decode_entry;
use crate::codec::decode_entry_v;

verus! {

/// Why reading a journal back failed: the 0-based index of the first line
/// that does not decode to a record.
#[derive(Clone, Copy, PartialEq, Eq, Structural, Debug)]
pub enum JournalError {
    CorruptLine(usize),
}

/// One day's journal, modelled as the lines of the day's file in order.
/// Appends only ever push a line; nothing is rewritten. The application
/// mirrors `lines` to the file on disk.
pub struct Journal {
    pub lines: Vec<String>,
}

impl View for Journal {
    type V = Seq<Seq<char>>;

    open spec fn view(&self) -> Seq<Seq<char>> {
        self.lines@.map_values(|s: String| s@)
    }
}

impl Journal {
    /// An empty journal, for a day with no recorded lines yet.
    pub fn new() -> (r: Self)
        ensures
            r@ == Seq::<Seq<char>>::empty(),
    {
        let r = Journal { lines: Vec::new() };
        proof {
            assert(r@ =~= Seq::<Seq<char>>::empty());
        }
        r
    }

    /// Appends one record as one new line; the only durability primitive.
    /// Never touches the existing lines.
    pub fn append(&mut self, entry: &SessionEntry)
        ensures
            final(self)@ == old(self)@.push(encode_entry_v(entry@)),
    {
        let line = encode_entry(entry);
        self.lines.push(line);
        proof {
            assert(self@ =~= old(self)@.push(encode_entry_v(entry@)));
        }
    }

    /// Reads every line back into a record, in order; stops at the first
    /// corrupt line and reports its index rather than skipping it.
    #[verifier::loop_isolation(false)]
    pub fn parse_all(&self) -> (r: Result<Vec<SessionEntry>, JournalError>)
        ensures
            match r {
                Ok(es) => {
                    &&& forall|i: int|
                        0 <= i < self@.len() ==> (#[trigger] decode_entry_v(self@[i])) is Some
                    &&& es@.len() == self@.len()
                    &&& forall|i: int|
                        0 <= i < self@.len() ==> (#[trigger] es@[i])@ == decode_entry_v(
                            self@[i],
                        ).unwrap()
                },
                Err(JournalError::CorruptLine(i)) => {
                    &&& i < self@.len()
                    &&& decode_entry_v(self@[i as int]) is None
                    &&& forall|m: int|
                        0 <= m < i ==> (#[trigger] decode_entry_v(self@[m])) is Some
                },
            },
    {
        proof {
            assert(forall|i: int|
                0 <= i < self@.len() ==> self@[i] == (#[trigger] self.lines@[i])@);
        }
        let mut out: Vec<SessionEntry> = Vec::new();
        let mut i: usize = 0;
        while i < self.lines.len()
            invariant
                0 <= i <= self.lines@.len(),
                out@.len() == i,
                forall|m: int| 0 <= m < i ==> (#[trigger] decode_entry_v(self@[m])) is Some,
                forall|m: int|
                    0 <= m < i ==> (#[trigger] out@[m])@ == decode_entry_v(self@[m]).unwrap(),
            decreases self.lines@.len() - i,
        {
            match decode_entry(self.lines[i].as_str()) {
                Some(e) => {
                    out.push(e);
                },
                None => {
                    return Err(JournalError::CorruptLine(i));
                },
            }
            i = i + 1;
        }
        Ok(out)
    }
}

} // verus!

use crate::digits::dec_digits;
use crate::digits::push_dec;

verus! {

/// The four-digit year of a journal file name, zero-padded.
pub open spec fn pad4(n: u64) -> Seq<char> {
    (if n < 10 {
        "000"@
    } else if n < 100 {
        "00"@
    } else if n < 1000 {
        "0"@
    } else {
        Seq::empty()
    }) + dec_digits(n as nat)
}

/// A two-digit month or day of a journal file name, zero-padded.
pub open spec fn pad2(n: u64) -> Seq<char> {
    (if n < 10 {
        "0"@
    } else {
        Seq::empty()
    }) + dec_digits(n as nat)
}

/// The file name a day's journal is bound to.
pub open spec fn journal_file_name_text(year: u64, month: u64, day: u64) -> Seq<char> {
    "journal-"@ + pad4(year) + "-"@ + pad2(month) + "-"@ + pad2(day) + ".jsonl"@
}

/// Computes the file name of a calendar day's journal: `journal-` and the
/// zero-padded ISO date. The application resolves the data directory and
/// the current date around it.
pub fn journal_file_name(year: u64, month: u64, day: u64) -> (r: String)
    requires
        year <= 9999,
        1 <= month <= 12,
        1 <= day <= 31,
    ensures
        r@ == journal_file_name_text(year, month, day),
{
    let mut out = String::new();
    out.append("journal-");
    if year < 10 {
        out.append("000");
    } else if year < 100 {
        out.append("00");
    } else if year < 1000 {
        out.append("0");
    }
    push_dec(&mut out, year);
    out.append("-");
    if month < 10 {
        out.append("0");
    }
    push_dec(&mut out, month);
    out.append("-");
    if day < 10 {
        out.append("0");
    }
    push_dec(&mut out, day);
    out.append(".jsonl");
    proof {
        assert(out@ =~= journal_file_name_text(year, month, day));
    }
    out
}

} // verus!
