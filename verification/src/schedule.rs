//! The schedule builder: a validated configuration becomes an ordered
//! sequence of timed segments, alternating focus and break, with a long
//! break closing the last cycle.
use vstd::prelude::*;
use crate::config::Config;

verus! {

/// What a segment is for.
#[derive(Clone, Copy, PartialEq, Eq, Structural, Debug)]
pub enum SegmentKind {
    Focus,
    ShortBreak,
    LongBreak,
}

/// One timed phase of a session: its kind, its duration in seconds, and the
/// 1-based cycle it belongs to.
#[derive(Clone, Copy, PartialEq, Eq, Structural, Debug)]
pub struct Segment {
    pub kind: SegmentKind,
    pub seconds: u64,
    pub cycle_index: u8,
}

/// The full ordered sequence of segments for one session.
pub struct Schedule {
    pub segments: Vec<Segment>,
}

/// The segment at position `j` of a schedule built from the given
/// second-granularity durations: even positions are focus segments, odd
/// positions are breaks, and only the last break is long. Positions `2k`
/// and `2k + 1` belong to cycle `k + 1`.
pub open spec fn segment_at(focus_s: u64, short_s: u64, long_s: u64, cycles: u8, j: int) -> Segment {
    let c = (j / 2 + 1) as u8;
    if j % 2 == 0 {
        Segment { kind: SegmentKind::Focus, seconds: focus_s, cycle_index: c }
    } else if j == 2 * cycles - 1 {
        Segment { kind: SegmentKind::LongBreak, seconds: long_s, cycle_index: c }
    } else {
        Segment { kind: SegmentKind::ShortBreak, seconds: short_s, cycle_index: c }
    }
}

/// The whole schedule for the given durations: `2 * cycles` segments, the
/// one at position `j` being `segment_at(..., j)`.
pub open spec fn schedule_seq(focus_s: u64, short_s: u64, long_s: u64, cycles: u8) -> Seq<Segment> {
    Seq::new(2 * cycles as nat, |j: int| segment_at(focus_s, short_s, long_s, cycles, j))
}

impl Schedule {
    /// Builds the schedule of a validated configuration, converting each
    /// minute-granularity duration to seconds.
    pub fn from_config(cfg: &Config) -> (r: Self)
        requires
            cfg@.valid(),
        ensures
            r.segments@ == schedule_seq(
                (cfg@.focus_min * 60) as u64,
                (cfg@.short_min * 60) as u64,
                (cfg@.long_min * 60) as u64,
                cfg@.cycles,
            ),
    {
        let focus_s: u64 = cfg.focus_min * 60;
        let short_s: u64 = cfg.short_min * 60;
        let long_s: u64 = cfg.long_min * 60;
        Schedule::from_seconds(focus_s, short_s, long_s, cfg.cycles)
    }

    /// Builds a schedule from durations given directly in seconds; useful
    /// for fast-running sessions in integration tests.
    pub fn from_seconds_for_test(focus_s: u64, short_s: u64, long_s: u64, cycles: u8) -> (r: Self)
        ensures
            r.segments@ == schedule_seq(focus_s, short_s, long_s, cycles),
    {
        Schedule::from_seconds(focus_s, short_s, long_s, cycles)
    }

    /// The common builder: for each cycle a focus segment, then a short
    /// break, except that the last cycle's break is long.
    fn from_seconds(focus_s: u64, short_s: u64, long_s: u64, cycles: u8) -> (r: Self)
        ensures
            r.segments@ == schedule_seq(focus_s, short_s, long_s, cycles),
    {
        let mut segs: Vec<Segment> = Vec::new();
        let mut i: u16 = 1;
        while i <= cycles as u16
            invariant
                1 <= i <= cycles + 1,
                segs@.len() == 2 * (i - 1),
                forall|j: int| 0 <= j < segs@.len() ==>
                    segs@[j] == segment_at(focus_s, short_s, long_s, cycles, j),
            decreases cycles + 1 - i,
        {
            let c: u8 = i as u8;
            segs.push(Segment { kind: SegmentKind::Focus, seconds: focus_s, cycle_index: c });
            if i == cycles as u16 {
                segs.push(Segment { kind: SegmentKind::LongBreak, seconds: long_s, cycle_index: c });
            } else {
                segs.push(Segment { kind: SegmentKind::ShortBreak, seconds: short_s, cycle_index: c });
            }
            i = i + 1;
        }
        proof {
            assert(segs@ =~= schedule_seq(focus_s, short_s, long_s, cycles));
        }
        Schedule { segments: segs }
    }
}

/// The shape law: in every schedule of at least one cycle, each even
/// position holds a focus segment, each odd position but the last holds a
/// short break, and the last position holds the long break.
pub proof fn lemma_schedule_shape(focus_s: u64, short_s: u64, long_s: u64, cycles: u8)
    requires
        cycles >= 1,
    ensures
        schedule_seq(focus_s, short_s, long_s, cycles).len() == 2 * cycles,
        forall|j: int| 0 <= j < 2 * cycles && j % 2 == 0 ==>
            (#[trigger] schedule_seq(focus_s, short_s, long_s, cycles)[j]).kind == SegmentKind::Focus,
        forall|j: int| 0 <= j < 2 * cycles - 1 && j % 2 == 1 ==>
            (#[trigger] schedule_seq(focus_s, short_s, long_s, cycles)[j]).kind == SegmentKind::ShortBreak,
        schedule_seq(focus_s, short_s, long_s, cycles)[2 * cycles - 1].kind == SegmentKind::LongBreak,
        forall|j: int| 0 <= j < 2 * cycles ==>
            (#[trigger] schedule_seq(focus_s, short_s, long_s, cycles)[j]).cycle_index == j / 2 + 1,
{
}

/// The single-cycle law: one cycle yields exactly a focus segment followed
/// by a long break.
pub proof fn lemma_single_cycle(focus_s: u64, short_s: u64, long_s: u64)
    ensures
        schedule_seq(focus_s, short_s, long_s, 1) =~= seq![
            Segment { kind: SegmentKind::Focus, seconds: focus_s, cycle_index: 1 },
            Segment { kind: SegmentKind::LongBreak, seconds: long_s, cycle_index: 1 },
        ],
{
}

/// The duration law: every focus segment lasts `focus_s` seconds, every
/// short break `short_s`, every long break `long_s`.
pub proof fn lemma_segment_durations(focus_s: u64, short_s: u64, long_s: u64, cycles: u8, j: int)
    requires
        0 <= j < 2 * cycles,
    ensures
        ({
            let seg = schedule_seq(focus_s, short_s, long_s, cycles)[j];
            seg.seconds == match seg.kind {
                SegmentKind::Focus => focus_s,
                SegmentKind::ShortBreak => short_s,
                SegmentKind::LongBreak => long_s,
            }
        }),
{
}

} // verus!
