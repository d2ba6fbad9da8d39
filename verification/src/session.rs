//! The session state machine: it drives a schedule segment by segment,
//! updating the shared session record and appending a snapshot to the
//! journal after every completed segment, and writes exactly one terminal
//! record at the end.
//!
//! Waiting out a segment's duration, rendering, signal handling and disk
//! I/O happen in the surrounding application, which calls these steps in
//! schedule order and mirrors every journal change to the day's file.
use vstd::prelude::*;
use crate::config::Config;
use crate::digits::dec_digits;
use crate::digits::push_dec;
use crate::digits::pow10;
use crate::digits::lemma_dec_digits_len;
use crate::schedule::Segment;
use crate::schedule::SegmentKind;
use crate::storage::EntryV;
use crate::storage::Journal;
use crate::storage::SessionEntry;
use crate::storage::SessionState;
use crate::storage::entry_encodable;
use crate::codec::encode_entry_v;
use crate::codec::decode_entry_v;
use crate::codec::lemma_decode_encode;

verus! {

/// The label under which a segment kind appears on screen and in the log.
pub open spec fn kind_label(k: SegmentKind) -> Seq<char> {
    match k {
        SegmentKind::Focus => "FOCUS"@,
        SegmentKind::ShortBreak => "BREAK"@,
        SegmentKind::LongBreak => "LONG BREAK"@,
    }
}

/// The log line of one completed segment: its label, a colon, its duration
/// in seconds and the unit letter.
pub open spec fn segment_log_text(seg: Segment) -> Seq<char> {
    kind_label(seg.kind) + ":"@ + dec_digits(seg.seconds as nat) + "s"@
}

/// The screen label of a segment kind.
pub fn kind_label_str(k: SegmentKind) -> (r: &'static str)
    ensures
        r@ == kind_label(k),
{
    match k {
        SegmentKind::Focus => "FOCUS",
        SegmentKind::ShortBreak => "BREAK",
        SegmentKind::LongBreak => "LONG BREAK",
    }
}

/// Renders the log line of one completed segment.
pub fn segment_log_line(seg: &Segment) -> (r: String)
    ensures
        r@ == segment_log_text(*seg),
{
    let mut out = String::new();
    out.append(kind_label_str(seg.kind));
    out.append(":");
    push_dec(&mut out, seg.seconds);
    out.append("s");
    proof {
        assert(out@ =~= segment_log_text(*seg));
    }
    out
}

/// A segment's log line is always short; logs stay encodable.
proof fn lemma_log_text_short(seg: Segment)
    ensures
        segment_log_text(seg).len() < pow10(18),
{
    assert(pow10(18) == 1_000_000_000_000_000_000 && pow10(20) == 100_000_000_000_000_000_000)
        by {
        reveal_with_fuel(pow10, 21);
    }
    lemma_dec_digits_len(seg.seconds as nat, 20);
    reveal_strlit("FOCUS");
    reveal_strlit("BREAK");
    reveal_strlit("LONG BREAK");
    reveal_strlit(":");
    reveal_strlit("s");
}

/// One running session: the record it owns while the schedule is driven.
/// The application keeps it behind a lock so the interrupt bridge sees the
/// same record the timer loop updates.
pub struct Session {
    pub entry: SessionEntry,
}

impl Session {
    /// What holds throughout a run: the record is still ongoing, every
    /// snapshot of it encodes into a decodable journal line, and the log
    /// stays far below any machine limit (a schedule has at most 510
    /// segments).
    pub open spec fn wf(self) -> bool {
        &&& self.entry@.state == SessionState::Ongoing
        &&& entry_encodable(self.entry@)
        &&& self.entry@.segments.len() <= 1000000
    }

    /// Starts a session at `now` for a validated configuration: the record
    /// is created ongoing with an empty log. Nothing is journalled yet;
    /// the first snapshot is appended when the first segment completes.
    pub fn start(cfg: &Config, now: i64) -> (r: Self)
        requires
            cfg@.valid(),
        ensures
            r.wf(),
            r.entry@ == (EntryV {
                start: now as int,
                end: None,
                cfg: cfg@,
                state: SessionState::Ongoing,
                segments: Seq::empty(),
                last_updated: now as int,
            }),
    {
        let entry = SessionEntry::new(cfg, now);
        proof {
            assert(pow10(18) == 1_000_000_000_000_000_000 && pow10(19)
                == 10_000_000_000_000_000_000) by {
                reveal_with_fuel(pow10, 20);
            }
        }
        Session { entry }
    }

    /// Books one completed segment at time `now`: its log line is appended
    /// to the record, the record's freshness stamp moves to `now`, and a
    /// full snapshot of the updated record becomes the journal's new last
    /// line. Everything already journalled is untouched.
    pub fn complete_segment(&mut self, journal: &mut Journal, seg: &Segment, now: i64)
        requires
            old(self).wf(),
            old(self).entry@.segments.len() < 1000000,
        ensures
            final(self).wf(),
            final(self).entry@ == (EntryV {
                segments: old(self).entry@.segments.push(segment_log_text(*seg)),
                last_updated: now as int,
                ..old(self).entry@
            }),
            final(journal)@ == old(journal)@.push(encode_entry_v(final(self).entry@)),
    {
        let line = segment_log_line(seg);
        self.entry.segments.push(line);
        self.entry.last_updated = now;
        journal.append(&self.entry);
        proof {
            lemma_log_text_short(*seg);
            assert(pow10(18) == 1_000_000_000_000_000_000 && pow10(19)
                == 10_000_000_000_000_000_000) by {
                reveal_with_fuel(pow10, 20);
            }
            assert(self.entry@.segments =~= old(self).entry@.segments.push(
                segment_log_text(*seg),
            ));
            assert(self.entry@ =~= (EntryV {
                segments: old(self).entry@.segments.push(segment_log_text(*seg)),
                last_updated: now as int,
                ..old(self).entry@
            }));
        }
    }

    /// Normal completion, after the whole schedule ran: stamps the end
    /// time, moves the record to its one terminal state `Completed`,
    /// appends the terminal snapshot, and hands the record back as the
    /// run's result. Consumes the session: no transition leaves a
    /// terminal record.
    pub fn finish(self, journal: &mut Journal, now: i64) -> (r: SessionEntry)
        requires
            self.wf(),
        ensures
            r@ == (EntryV {
                end: Some(now as int),
                state: SessionState::Completed,
                ..self.entry@
            }),
            final(journal)@ == old(journal)@.push(encode_entry_v(r@)),
    {
        let mut entry = self.entry;
        entry.end = Some(now);
        entry.state = SessionState::Completed;
        journal.append(&entry);
        proof {
            assert(entry@ =~= (EntryV {
                end: Some(now as int),
                state: SessionState::Completed,
                ..self.entry@
            }));
        }
        entry
    }

    /// The interrupt bridge's transition: stamps the end time, moves the
    /// record to its one terminal state `Interrupted`, and replaces the
    /// journal's lines with the single terminal snapshot, the
    /// overwrite-style save the bridge performs before the process exits.
    /// Consumes the session: at most one terminal transition ever happens.
    pub fn interrupt(self, journal: &mut Journal, now: i64) -> (r: SessionEntry)
        requires
            self.wf(),
        ensures
            r@ == (EntryV {
                end: Some(now as int),
                state: SessionState::Interrupted,
                ..self.entry@
            }),
            final(journal)@ == seq![encode_entry_v(r@)],
    {
        let mut entry = self.entry;
        entry.end = Some(now);
        entry.state = SessionState::Interrupted;
        let mut fresh = Journal::new();
        fresh.append(&entry);
        *journal = fresh;
        proof {
            assert(entry@ =~= (EntryV {
                end: Some(now as int),
                state: SessionState::Interrupted,
                ..self.entry@
            }));
            assert(journal@ =~= seq![encode_entry_v(entry@)]);
        }
        entry
    }
}

/// The durability law: while a session is running, the journal's last line
/// decodes to exactly the current record, so a crash after `k` completed
/// segments leaves a last line whose record is still `Ongoing` with a
/// segment log of length `k`.
pub proof fn lemma_partial_recovery(s: Session, lines: Seq<Seq<char>>)
    requires
        s.wf(),
        lines.len() >= 1,
        lines.last() == encode_entry_v(s.entry@),
    ensures
        decode_entry_v(lines.last()) == Some(s.entry@),
        decode_entry_v(lines.last()).unwrap().state == SessionState::Ongoing,
        decode_entry_v(lines.last()).unwrap().segments.len() == s.entry@.segments.len(),
{
    lemma_decode_encode(s.entry@);
}

} // verus!
