//! The journal line format and its codec.
//!
//! A record is one line of length-prefixed fields, each `len:payload` with
//! `len` in decimal counting the payload's characters. String payloads are
//! escaped so that no line ever contains a newline; every other payload is
//! a decimal number or a one-letter marker. Decoding is exact: a line
//! either decodes to precisely the record that produced it (the round-trip
//! lemma) or is rejected as corrupt.
use vstd::prelude::*;
use crate::digits::pow10;
use crate::digits::is_digit;
use crate::digits::dec_digits;
use crate::digits::dec_signed;
use crate::digits::parse_dec;
use crate::digits::parse_dec_checked;
use crate::digits::parse_signed;
use crate::digits::lemma_dec_digits_are_digits;
use crate::digits::lemma_dec_digits_len;
use crate::digits::lemma_parse_of_dec;
use crate::digits::lemma_parse_checked_of_dec;
use crate::digits::lemma_parse_signed_of_dec;

verus! {

// ---------------------------------------------------------------------
// Escaping: journal lines must not contain a newline, so '%' begins an
// escape pair for the three characters that cannot appear raw.
// ---------------------------------------------------------------------

/// How one character appears inside a string payload.
pub open spec fn esc_char(c: char) -> Seq<char> {
    if c == '%' {
        seq!['%', 'p']
    } else if c == '\n' {
        seq!['%', 'n']
    } else if c == '\r' {
        seq!['%', 'r']
    } else {
        seq![c]
    }
}

/// The escaped form of a string payload.
pub open spec fn esc(s: Seq<char>) -> Seq<char>
    decreases s.len(),
{
    if s.len() == 0 {
        Seq::empty()
    } else {
        esc_char(s[0]) + esc(s.skip(1))
    }
}

/// The inverse: `None` when the input is not a well-formed escaped string.
pub open spec fn unesc(s: Seq<char>) -> Option<Seq<char>>
    decreases s.len(),
{
    if s.len() == 0 {
        Some(Seq::empty())
    } else if s[0] == '%' {
        if s.len() >= 2 {
            let c = if s[1] == 'p' {
                Some('%')
            } else if s[1] == 'n' {
                Some('\n')
            } else if s[1] == 'r' {
                Some('\r')
            } else {
                None
            };
            match c {
                Some(c0) => match unesc(s.skip(2)) {
                    Some(r) => Some(seq![c0] + r),
                    None => None,
                },
                None => None,
            }
        } else {
            None
        }
    } else {
        match unesc(s.skip(1)) {
            Some(r) => Some(seq![s[0]] + r),
            None => None,
        }
    }
}

/// Escaping distributes over appending one character.
pub proof fn lemma_esc_push(s: Seq<char>, c: char)
    ensures
        esc(s.push(c)) == esc(s) + esc_char(c),
    decreases s.len(),
{
    assert(esc(Seq::<char>::empty()) == Seq::<char>::empty());
    if s.len() == 0 {
        assert(s.push(c)[0] == c);
        assert(s.push(c).skip(1) =~= Seq::<char>::empty());
        assert(esc(s.push(c)) == esc_char(c) + esc(Seq::<char>::empty()));
        assert(s =~= Seq::<char>::empty());
        assert(esc(s.push(c)) =~= esc(s) + esc_char(c));
    } else {
        assert(s.push(c)[0] == s[0]);
        assert(s.push(c).skip(1) =~= s.skip(1).push(c));
        lemma_esc_push(s.skip(1), c);
        assert(esc(s.push(c)) == esc_char(s[0]) + (esc(s.skip(1)) + esc_char(c)));
        assert(esc(s.push(c)) =~= esc(s) + esc_char(c));
    }
}

/// Unescaping inverts escaping.
pub proof fn lemma_unesc_esc(s: Seq<char>)
    ensures
        unesc(esc(s)) == Some(s),
    decreases s.len(),
{
    if s.len() == 0 {
        assert(unesc(esc(s)) == Some(Seq::<char>::empty()));
        assert(Seq::<char>::empty() =~= s);
    } else {
        lemma_unesc_esc(s.skip(1));
        let t = esc(s);
        assert(t == esc_char(s[0]) + esc(s.skip(1)));
        if s[0] == '%' || s[0] == '\n' || s[0] == '\r' {
            assert(t.len() >= 2);
            assert(t[0] == '%');
            assert(t.skip(2) =~= esc(s.skip(1)));
            assert(unesc(t).unwrap() =~= s);
        } else {
            assert(t[0] == s[0]);
            assert(t.skip(1) =~= esc(s.skip(1)));
            assert(unesc(t).unwrap() =~= s);
        }
    }
}

/// An escaped payload never contains a newline or carriage return.
pub proof fn lemma_esc_no_newline(s: Seq<char>)
    ensures
        forall|i: int| 0 <= i < esc(s).len() ==> #[trigger] esc(s)[i] != '\n' && esc(s)[i] != '\r',
    decreases s.len(),
{
    if s.len() > 0 {
        lemma_esc_no_newline(s.skip(1));
        let head = esc_char(s[0]);
        assert forall|i: int|
            0 <= i < esc(s).len() implies #[trigger] esc(s)[i] != '\n' && esc(s)[i] != '\r' by {
            if i < head.len() {
                assert(esc(s)[i] == head[i]);
            } else {
                assert(esc(s)[i] == esc(s.skip(1))[i - head.len()]);
            }
        }
    }
}

/// Escaping at most doubles the length.
pub proof fn lemma_esc_len(s: Seq<char>)
    ensures
        s.len() <= esc(s).len() <= 2 * s.len(),
    decreases s.len(),
{
    if s.len() > 0 {
        lemma_esc_len(s.skip(1));
    }
}

// ---------------------------------------------------------------------
// Fields: `len:payload`, concatenated. Reading takes the decimal length,
// the colon, then exactly that many characters.
// ---------------------------------------------------------------------

/// One encoded field.
pub open spec fn field(payload: Seq<char>) -> Seq<char> {
    dec_digits(payload.len()) + seq![':'] + payload
}

/// A whole line: the fields in order.
pub open spec fn encode_fields(fs: Seq<Seq<char>>) -> Seq<char>
    decreases fs.len(),
{
    if fs.len() == 0 {
        Seq::empty()
    } else {
        field(fs[0]) + encode_fields(fs.skip(1))
    }
}

/// The end of the digit run starting at `i`.
pub open spec fn digits_end(s: Seq<char>, i: int) -> int
    decreases s.len() - i,
{
    if i < 0 || i >= s.len() || !is_digit(s[i]) {
        i
    } else {
        digits_end(s, i + 1)
    }
}

/// The digit run stays within the string.
pub proof fn lemma_digits_end_bounds(s: Seq<char>, i: int)
    requires
        0 <= i <= s.len(),
    ensures
        i <= digits_end(s, i) <= s.len(),
    decreases s.len() - i,
{
    if !(i >= s.len() || !is_digit(s[i])) {
        lemma_digits_end_bounds(s, i + 1);
    }
}

/// The characterization of `digits_end`: it is the first position at or
/// after `i` that is past the end or holds a non-digit.
pub proof fn lemma_digits_end_eq(s: Seq<char>, i: int, j: int)
    requires
        0 <= i <= j <= s.len(),
        forall|m: int| i <= m < j ==> is_digit(#[trigger] s[m]),
        j == s.len() || !is_digit(s[j]),
    ensures
        digits_end(s, i) == j,
    decreases j - i,
{
    if i < j {
        lemma_digits_end_eq(s, i + 1, j);
    }
}

/// Reading one field at position `i`: the payload and the position just
/// after it, or `None` if no well-formed field starts at `i`.
pub open spec fn read_field(s: Seq<char>, i: int) -> Option<(Seq<char>, int)> {
    if !(0 <= i <= s.len()) {
        None
    } else {
        let j = digits_end(s, i);
        if j == i || j - i > 19 {
            None
        } else if j == s.len() || s[j] != ':' {
            None
        } else {
            let l = parse_dec(s.subrange(i, j)) as int;
            if j + 1 + l > s.len() {
                None
            } else {
                Some((s.subrange(j + 1, j + 1 + l), j + 1 + l))
            }
        }
    }
}

/// A successful read lands strictly further right, within the string.
pub proof fn lemma_read_field_advances(s: Seq<char>, i: int)
    requires
        read_field(s, i) is Some,
    ensures
        i < read_field(s, i).unwrap().1 <= s.len(),
{
    lemma_digits_end_bounds(s, i);
}

/// Reading every field from position `i` to the end of the string.
pub open spec fn read_all_fields(s: Seq<char>, i: int) -> Option<Seq<Seq<char>>>
    decreases s.len() - i,
    when 0 <= i <= s.len()
    via read_all_fields_dec
{
    if i == s.len() {
        Some(Seq::empty())
    } else {
        match read_field(s, i) {
            None => None,
            Some((p, next)) => match read_all_fields(s, next) {
                None => None,
                Some(rest) => Some(seq![p] + rest),
            },
        }
    }
}

#[via_fn]
proof fn read_all_fields_dec(s: Seq<char>, i: int) {
    if i != s.len() && read_field(s, i) is Some {
        lemma_read_field_advances(s, i);
    }
}

/// Shifting: the digit run of the suffix `t` within `pre + t`.
pub proof fn lemma_digits_end_shift(pre: Seq<char>, t: Seq<char>, k: int)
    requires
        0 <= k <= t.len(),
    ensures
        digits_end(pre + t, pre.len() + k) == pre.len() + digits_end(t, k),
    decreases t.len() - k,
{
    let s = pre + t;
    if k < t.len() && is_digit(t[k]) {
        assert(s[pre.len() + k] == t[k]);
        lemma_digits_end_shift(pre, t, k + 1);
    } else {
        if k < t.len() {
            assert(s[pre.len() + k] == t[k]);
        }
    }
}

/// Shifting: reading a field of the suffix `t` within `pre + t`.
pub proof fn lemma_read_field_shift(pre: Seq<char>, t: Seq<char>, k: int)
    requires
        0 <= k <= t.len(),
    ensures
        match read_field(t, k) {
            None => read_field(pre + t, pre.len() + k) is None,
            Some((p, next)) => read_field(pre + t, pre.len() + k) == Some((p, pre.len() + next)),
        },
{
    let s = pre + t;
    lemma_digits_end_shift(pre, t, k);
    lemma_digits_end_bounds(t, k);
    let j = digits_end(t, k);
    if !(j == k || j - k > 19) && !(j == t.len() || t[j] != ':') {
        assert(s[pre.len() + j] == t[j]);
        assert(s.subrange(pre.len() + k, pre.len() + j) =~= t.subrange(k, j));
        let l = parse_dec(t.subrange(k, j)) as int;
        if !(j + 1 + l > t.len()) {
            assert(s.subrange(pre.len() + j + 1, pre.len() + j + 1 + l) =~= t.subrange(
                j + 1,
                j + 1 + l,
            ));
        }
    } else {
        if !(j == k || j - k > 19) && j < t.len() {
            assert(s[pre.len() + j] == t[j]);
        }
    }
}

/// Shifting: reading all fields of the suffix `t` within `pre + t`.
pub proof fn lemma_read_all_shift(pre: Seq<char>, t: Seq<char>, k: int)
    requires
        0 <= k <= t.len(),
    ensures
        read_all_fields(pre + t, pre.len() + k) == read_all_fields(t, k),
    decreases t.len() - k,
{
    let s = pre + t;
    if k == t.len() {
        assert(read_all_fields(s, pre.len() + k) == Some(Seq::<Seq<char>>::empty()));
    } else {
        lemma_read_field_shift(pre, t, k);
        match read_field(t, k) {
            None => {},
            Some((p, next)) => {
                lemma_read_field_advances(t, k);
                lemma_read_all_shift(pre, t, next);
            },
        }
    }
}

/// Reading the first field of an encoded field followed by anything gives
/// that field's payload back and lands just after it.
pub proof fn lemma_read_field_at_field(payload: Seq<char>, rest: Seq<char>)
    requires
        payload.len() < pow10(19),
    ensures
        read_field(field(payload) + rest, 0) == Some((payload, field(payload).len() as int)),
{
    let s = field(payload) + rest;
    let d = dec_digits(payload.len());
    lemma_dec_digits_are_digits(payload.len());
    lemma_dec_digits_len(payload.len(), 19);
    lemma_parse_of_dec(payload.len());
    assert forall|m: int| 0 <= m < d.len() implies is_digit(#[trigger] s[m]) by {
        assert(s[m] == d[m]);
    }
    assert(s[d.len() as int] == ':');
    assert(!is_digit(':'));
    lemma_digits_end_eq(s, 0, d.len() as int);
    assert(s.subrange(0, d.len() as int) =~= d);
    let l = payload.len() as int;
    assert(s.subrange(d.len() as int + 1, d.len() as int + 1 + l) =~= payload);
}

/// The field-level round trip: reading back the encoding of any list of
/// fields short enough for 19-digit lengths gives the list itself.
pub proof fn lemma_read_all_of_encode(fs: Seq<Seq<char>>)
    requires
        forall|i: int| 0 <= i < fs.len() ==> (#[trigger] fs[i]).len() < pow10(19),
    ensures
        read_all_fields(encode_fields(fs), 0) == Some(fs),
    decreases fs.len(),
{
    if fs.len() == 0 {
        assert(encode_fields(fs) =~= Seq::<char>::empty());
        assert(Seq::<Seq<char>>::empty() =~= fs);
    } else {
        let head = field(fs[0]);
        let tail = encode_fields(fs.skip(1));
        let s = encode_fields(fs);
        assert(s == head + tail);
        lemma_read_field_at_field(fs[0], tail);
        lemma_read_all_of_encode(fs.skip(1));
        lemma_read_all_shift(head, tail, 0);
        assert(head + tail.subrange(0, tail.len() as int) =~= s);
        assert(read_all_fields(s, head.len() as int) == read_all_fields(tail, 0));
        assert(head.len() >= 2);
        assert(seq![fs[0]] + fs.skip(1) =~= fs);
    }
}

/// Appending one more field to an encoded line.
pub proof fn lemma_encode_fields_push(fs: Seq<Seq<char>>, f: Seq<char>)
    ensures
        encode_fields(fs.push(f)) == encode_fields(fs) + field(f),
    decreases fs.len(),
{
    assert(encode_fields(Seq::<Seq<char>>::empty()) == Seq::<char>::empty());
    if fs.len() == 0 {
        assert(fs.push(f)[0] == f);
        assert(fs.push(f).skip(1) =~= Seq::<Seq<char>>::empty());
        assert(encode_fields(fs.push(f)) == field(f) + encode_fields(Seq::<Seq<char>>::empty()));
        assert(fs =~= Seq::<Seq<char>>::empty());
        assert(encode_fields(fs.push(f)) =~= encode_fields(fs) + field(f));
    } else {
        assert(fs.push(f)[0] == fs[0]);
        assert(fs.push(f).skip(1) =~= fs.skip(1).push(f));
        lemma_encode_fields_push(fs.skip(1), f);
        assert(encode_fields(fs.push(f)) == field(fs[0]) + (encode_fields(fs.skip(1)) + field(f)));
        assert(encode_fields(fs.push(f)) =~= encode_fields(fs) + field(f));
    }
}

/// No encoded line contains a newline, provided none of its payloads does.
pub proof fn lemma_encode_fields_no_newline(fs: Seq<Seq<char>>)
    requires
        forall|i: int, k: int|
            0 <= i < fs.len() && 0 <= k < fs[i].len() ==> #[trigger] fs[i][k] != '\n',
    ensures
        forall|m: int|
            0 <= m < encode_fields(fs).len() ==> #[trigger] encode_fields(fs)[m] != '\n',
    decreases fs.len(),
{
    if fs.len() > 0 {
        lemma_dec_digits_are_digits(fs[0].len());
        assert(forall|i: int, k: int|
            0 <= i < fs.skip(1).len() && 0 <= k < fs.skip(1)[i].len()
                ==> #[trigger] fs.skip(1)[i][k] != '\n');
        lemma_encode_fields_no_newline(fs.skip(1));
        let head = field(fs[0]);
        assert forall|m: int| 0 <= m < head.len() implies #[trigger] head[m] != '\n' by {
            let d = dec_digits(fs[0].len());
            if m < d.len() {
                assert(head[m] == d[m]);
                assert(is_digit(d[m]));
            } else if m == d.len() {
                assert(head[m] == ':');
            } else {
                assert(head[m] == fs[0][m - d.len() - 1]);
            }
        }
        assert forall|m: int|
            0 <= m < encode_fields(fs).len() implies #[trigger] encode_fields(fs)[m] != '\n' by {
            if m < head.len() {
                assert(encode_fields(fs)[m] == head[m]);
            } else {
                assert(encode_fields(fs)[m] == encode_fields(fs.skip(1))[m - head.len()]);
            }
        }
    }
}

} // verus!

use crate::storage::SessionState;
use crate::storage::SessionEntry;
use crate::storage::EntryV;
use crate::storage::entry_encodable;
use crate::config::Config;
use crate::config::ConfigV;
use crate::digits::push_dec;
use crate::digits::push_dec_signed;
use crate::digits::parse_u64_payload;
use crate::digits::parse_i64_payload;

verus! {

// ---------------------------------------------------------------------
// The record as a list of payloads: ten fixed fields, then one field per
// logged segment.
// ---------------------------------------------------------------------

/// The one-letter payload of the session state.
pub open spec fn state_payload(st: SessionState) -> Seq<char> {
    match st {
        SessionState::Ongoing => seq!['O'],
        SessionState::Completed => seq!['C'],
        SessionState::Interrupted => seq!['I'],
    }
}

/// An optional timestamp: `n` alone, or `s` before the signed decimal.
pub open spec fn opt_i64_payload(v: Option<int>) -> Seq<char> {
    match v {
        None => seq!['n'],
        Some(t) => seq!['s'] + dec_signed(t),
    }
}

/// An optional string: `n` alone, or `s` before the escaped text.
pub open spec fn opt_str_payload(v: Option<Seq<char>>) -> Seq<char> {
    match v {
        None => seq!['n'],
        Some(t) => seq!['s'] + esc(t),
    }
}

/// The payloads of a record, in order: start, end, state, the four
/// configuration numbers, the task label, the last-updated stamp, the
/// segment count, then each logged segment.
pub open spec fn entry_payloads(e: EntryV) -> Seq<Seq<char>> {
    seq![
        dec_signed(e.start),
        opt_i64_payload(e.end),
        state_payload(e.state),
        dec_digits(e.cfg.focus_min as nat),
        dec_digits(e.cfg.short_min as nat),
        dec_digits(e.cfg.long_min as nat),
        dec_digits(e.cfg.cycles as nat),
        opt_str_payload(e.cfg.task),
        dec_signed(e.last_updated),
        dec_digits(e.segments.len()),
    ] + e.segments.map_values(|g: Seq<char>| esc(g))
}

/// The journal line of a record.
pub open spec fn encode_entry_v(e: EntryV) -> Seq<char> {
    encode_fields(entry_payloads(e))
}

/// Reads a state payload back.
pub open spec fn parse_state(p: Seq<char>) -> Option<SessionState> {
    if p.len() == 1 && p[0] == 'O' {
        Some(SessionState::Ongoing)
    } else if p.len() == 1 && p[0] == 'C' {
        Some(SessionState::Completed)
    } else if p.len() == 1 && p[0] == 'I' {
        Some(SessionState::Interrupted)
    } else {
        None
    }
}

/// Reads an optional timestamp payload back.
pub open spec fn parse_opt_i64(p: Seq<char>) -> Option<Option<int>> {
    if p.len() == 1 && p[0] == 'n' {
        Some(None)
    } else if p.len() >= 1 && p[0] == 's' {
        match parse_signed(p.skip(1)) {
            Some(v) => Some(Some(v)),
            None => None,
        }
    } else {
        None
    }
}

/// Reads an optional string payload back.
pub open spec fn parse_opt_str(p: Seq<char>) -> Option<Option<Seq<char>>> {
    if p.len() == 1 && p[0] == 'n' {
        Some(None)
    } else if p.len() >= 1 && p[0] == 's' {
        match unesc(p.skip(1)) {
            Some(v) => Some(Some(v)),
            None => None,
        }
    } else {
        None
    }
}

/// Interprets the fields of a line as a record: every payload must parse,
/// the cycle count must fit its field, and the number of segment fields
/// must match the recorded count.
pub open spec fn interp_fields(fs: Seq<Seq<char>>) -> Option<EntryV> {
    if fs.len() < 10 {
        None
    } else {
        let start = parse_signed(fs[0]);
        let end = parse_opt_i64(fs[1]);
        let st = parse_state(fs[2]);
        let focus = parse_dec_checked(fs[3]);
        let short = parse_dec_checked(fs[4]);
        let long = parse_dec_checked(fs[5]);
        let cycles = parse_dec_checked(fs[6]);
        let task = parse_opt_str(fs[7]);
        let lu = parse_signed(fs[8]);
        let nsegs = parse_dec_checked(fs[9]);
        if start is None || end is None || st is None || focus is None || short is None
            || long is None || cycles is None || task is None || lu is None || nsegs is None {
            None
        } else if cycles.unwrap() > 255 {
            None
        } else if fs.len() != 10 + nsegs.unwrap() {
            None
        } else if !(forall|i: int| 0 <= i < nsegs.unwrap() ==> (#[trigger] unesc(fs[10 + i])) is Some) {
            None
        } else {
            Some(EntryV {
                start: start.unwrap(),
                end: end.unwrap(),
                state: st.unwrap(),
                cfg: ConfigV {
                    focus_min: focus.unwrap() as u64,
                    short_min: short.unwrap() as u64,
                    long_min: long.unwrap() as u64,
                    cycles: cycles.unwrap() as u8,
                    task: task.unwrap(),
                },
                segments: Seq::new(nsegs.unwrap(), |i: int| unesc(fs[10 + i]).unwrap()),
                last_updated: lu.unwrap(),
            })
        }
    }
}

/// What a line means: `None` for a corrupt line, or the record it encodes.
pub open spec fn decode_entry_v(s: Seq<char>) -> Option<EntryV> {
    match read_all_fields(s, 0) {
        None => None,
        Some(fs) => interp_fields(fs),
    }
}

/// The codec round trip: the journal line of any encodable record decodes
/// back to exactly that record.
pub proof fn lemma_decode_encode(e: EntryV)
    requires
        entry_encodable(e),
    ensures
        decode_entry_v(encode_entry_v(e)) == Some(e),
{
    let fs = entry_payloads(e);
    assert(pow10(19) == 10_000_000_000_000_000_000 && pow10(18) == 1_000_000_000_000_000_000) by {
        reveal_with_fuel(pow10, 20);
    }
    // every payload is short enough for a 19-digit length field
    assert forall|i: int| 0 <= i < fs.len() implies (#[trigger] fs[i]).len() < pow10(19) by {
        lemma_dec_digits_len((if e.start < 0 { -e.start } else { e.start }) as nat, 19);
        lemma_dec_digits_len((if e.last_updated < 0 { -e.last_updated } else { e.last_updated }) as nat, 19);
        if e.end is Some {
            let t = e.end.unwrap();
            lemma_dec_digits_len((if t < 0 { -t } else { t }) as nat, 19);
        }
        lemma_dec_digits_len(e.cfg.focus_min as nat, 19);
        lemma_dec_digits_len(e.cfg.short_min as nat, 19);
        lemma_dec_digits_len(e.cfg.long_min as nat, 19);
        lemma_dec_digits_len(e.cfg.cycles as nat, 19);
        lemma_dec_digits_len(e.segments.len(), 19);
        if e.cfg.task is Some {
            lemma_esc_len(e.cfg.task.unwrap());
        }
        if i >= 10 {
            assert(fs[i] == esc(e.segments[i - 10]));
            lemma_esc_len(e.segments[i - 10]);
        }
    }
    lemma_read_all_of_encode(fs);
    // each payload parses back to the field it encodes
    lemma_parse_signed_of_dec(e.start);
    lemma_parse_signed_of_dec(e.last_updated);
    assert(fs[0] == dec_signed(e.start));
    assert(fs[8] == dec_signed(e.last_updated));
    match e.end {
        None => {
            assert(parse_opt_i64(fs[1]) == Some(None::<int>));
        },
        Some(t) => {
            lemma_parse_signed_of_dec(t);
            lemma_dec_digits_are_digits((if t < 0 { -t } else { t }) as nat);
            assert(fs[1][0] == 's');
            assert(fs[1].skip(1) =~= dec_signed(t));
            assert(parse_opt_i64(fs[1]) == Some(Some(t)));
        },
    }
    assert(parse_state(fs[2]) == Some(e.state));
    lemma_parse_checked_of_dec(e.cfg.focus_min as nat);
    lemma_parse_checked_of_dec(e.cfg.short_min as nat);
    lemma_parse_checked_of_dec(e.cfg.long_min as nat);
    lemma_parse_checked_of_dec(e.cfg.cycles as nat);
    lemma_parse_checked_of_dec(e.segments.len());
    match e.cfg.task {
        None => {
            assert(parse_opt_str(fs[7]) == Some(None::<Seq<char>>));
        },
        Some(t) => {
            lemma_unesc_esc(t);
            assert(fs[7][0] == 's');
            assert(fs[7].skip(1) =~= esc(t));
            assert(parse_opt_str(fs[7]) == Some(Some(t)));
        },
    }
    // the segment fields unescape back
    assert forall|i: int| 0 <= i < e.segments.len() implies (#[trigger] unesc(fs[10 + i])) is Some
        && unesc(fs[10 + i]).unwrap() == e.segments[i] by {
        assert(fs[10 + i] == esc(e.segments[i]));
        lemma_unesc_esc(e.segments[i]);
    }
    let got = interp_fields(fs);
    assert(got is Some);
    assert(got.unwrap().segments =~= e.segments);
    assert(got.unwrap().cfg =~= e.cfg) by {
        assert(got.unwrap().cfg.focus_min == e.cfg.focus_min);
    }
    assert(got.unwrap() =~= e);
}

// ---------------------------------------------------------------------
// Executable codec.
// ---------------------------------------------------------------------

/// Relies on `String::push` of std: appends exactly the one character.
#[verifier::external_body]
pub(crate) fn push_plain_char(out: &mut String, c: char)
    ensures
        final(out)@ == old(out)@.push(c),
{
    out.push(c);
}

/// Escapes a string payload; the executable form of `esc`.
pub fn escape_str(s: &str) -> (r: String)
    ensures
        r@ == esc(s@),
{
    let n = s.unicode_len();
    let mut out = String::new();
    let mut i: usize = 0;
    while i < n
        invariant
            0 <= i <= n,
            n == s@.len(),
            out@ == esc(s@.subrange(0, i as int)),
        decreases n - i,
    {
        let c = s.get_char(i);
        if c == '%' {
            out.append("%p");
        } else if c == '\n' {
            out.append("%n");
        } else if c == '\r' {
            out.append("%r");
        } else {
            push_plain_char(&mut out, c);
        }
        proof {
            reveal_strlit("%p");
            reveal_strlit("%n");
            reveal_strlit("%r");
            assert("%p"@ =~= seq!['%', 'p']);
            assert("%n"@ =~= seq!['%', 'n']);
            assert("%r"@ =~= seq!['%', 'r']);
            lemma_esc_push(s@.subrange(0, i as int), s@[i as int]);
            assert(s@.subrange(0, i as int).push(s@[i as int]) =~= s@.subrange(0, i as int + 1));
            assert(out@ =~= esc(s@.subrange(0, i as int + 1)));
        }
        i = i + 1;
    }
    proof {
        assert(s@.subrange(0, n as int) =~= s@);
    }
    out
}

/// Unescapes a string payload; the executable form of `unesc`.
pub fn unescape_str(s: &str) -> (r: Option<String>)
    ensures
        match unesc(s@) {
            Some(v) => r.is_some() && r.unwrap()@ == v,
            None => r is None,
        },
{
    let n = s.unicode_len();
    let mut out = String::new();
    let mut i: usize = 0;
    proof {
        assert(s@.skip(0) =~= s@);
        match unesc(s@) {
            Some(v) => {
                assert(out@ + v =~= v);
            },
            None => {},
        }
    }
    while i < n
        invariant
            0 <= i <= n,
            n == s@.len(),
            match unesc(s@.skip(i as int)) {
                Some(rest) => unesc(s@) == Some(out@ + rest),
                None => unesc(s@) is None,
            },
        decreases n - i,
    {
        let ghost rem = s@.skip(i as int);
        proof {
            assert(rem.len() == n - i);
            assert(rem[0] == s@[i as int]);
        }
        let c = s.get_char(i);
        if c == '%' {
            if i + 1 >= n {
                proof {
                    assert(unesc(rem) is None);
                }
                return None;
            }
            let c2 = s.get_char(i + 1);
            proof {
                assert(rem[1] == s@[i as int + 1]);
            }
            let dc: char = if c2 == 'p' {
                '%'
            } else if c2 == 'n' {
                '\n'
            } else if c2 == 'r' {
                '\r'
            } else {
                proof {
                    assert(unesc(rem) is None);
                }
                return None;
            };
            let ghost out0 = out@;
            push_plain_char(&mut out, dc);
            proof {
                assert(rem.skip(2) =~= s@.skip(i as int + 2));
                match unesc(s@.skip(i as int + 2)) {
                    Some(r2) => {
                        assert(unesc(rem) == Some(seq![dc] + r2));
                        assert(out0 + (seq![dc] + r2) =~= out@ + r2);
                    },
                    None => {
                        assert(unesc(rem) is None);
                    },
                }
            }
            i = i + 2;
        } else {
            let ghost out0 = out@;
            push_plain_char(&mut out, c);
            proof {
                assert(rem.skip(1) =~= s@.skip(i as int + 1));
                match unesc(s@.skip(i as int + 1)) {
                    Some(r2) => {
                        assert(unesc(rem) == Some(seq![c] + r2));
                        assert(out0 + (seq![c] + r2) =~= out@ + r2);
                    },
                    None => {
                        assert(unesc(rem) is None);
                    },
                }
            }
            i = i + 1;
        }
    }
    proof {
        assert(s@.skip(n as int) =~= Seq::<char>::empty());
        assert(unesc(Seq::<char>::empty()) == Some(Seq::<char>::empty()));
        assert(out@ + Seq::<char>::empty() =~= out@);
    }
    Some(out)
}

/// Appends one length-prefixed field to a line being built.
fn push_field(out: &mut String, payload: &str)
    ensures
        final(out)@ == old(out)@ + field(payload@),
{
    let l = payload.unicode_len();
    push_dec(out, l as u64);
    proof {
        reveal_strlit(":");
        assert(":"@ =~= seq![':']);
    }
    out.append(":");
    out.append(payload);
    proof {
        assert(out@ =~= old(out)@ + field(payload@));
    }
}

} // verus!

verus! {

/// Serializes a record as one journal line.
pub fn encode_entry(e: &SessionEntry) -> (r: String)
    ensures
        r@ == encode_entry_v(e@),
{
    let ghost target = entry_payloads(e@);
    let mut out = String::new();
    let ghost mut fsacc: Seq<Seq<char>> = Seq::empty();
    proof {
        assert(encode_fields(fsacc) =~= Seq::<char>::empty());
    }
    // start
    let mut p0 = String::new();
    push_dec_signed(&mut p0, e.start);
    push_field(&mut out, p0.as_str());
    proof {
        lemma_encode_fields_push(fsacc, p0@);
        fsacc = fsacc.push(p0@);
    }
    // end
    let mut p1 = String::new();
    proof {
        reveal_strlit("s");
        reveal_strlit("n");
        assert("s"@ =~= seq!['s']);
        assert("n"@ =~= seq!['n']);
    }
    match e.end {
        Some(t) => {
            p1.append("s");
            push_dec_signed(&mut p1, t);
            proof {
                assert(p1@ =~= opt_i64_payload(e@.end));
            }
        },
        None => {
            p1.append("n");
            proof {
                assert(p1@ =~= opt_i64_payload(e@.end));
            }
        },
    }
    push_field(&mut out, p1.as_str());
    proof {
        lemma_encode_fields_push(fsacc, p1@);
        fsacc = fsacc.push(p1@);
    }
    // state
    let pst: &str = match e.state {
        SessionState::Ongoing => "O",
        SessionState::Completed => "C",
        SessionState::Interrupted => "I",
    };
    proof {
        reveal_strlit("O");
        reveal_strlit("C");
        reveal_strlit("I");
        assert(pst@ =~= state_payload(e@.state));
    }
    push_field(&mut out, pst);
    proof {
        lemma_encode_fields_push(fsacc, pst@);
        fsacc = fsacc.push(pst@);
    }
    // the four configuration numbers
    let mut p3 = String::new();
    push_dec(&mut p3, e.cfg.focus_min);
    push_field(&mut out, p3.as_str());
    proof {
        lemma_encode_fields_push(fsacc, p3@);
        fsacc = fsacc.push(p3@);
    }
    let mut p4 = String::new();
    push_dec(&mut p4, e.cfg.short_min);
    push_field(&mut out, p4.as_str());
    proof {
        lemma_encode_fields_push(fsacc, p4@);
        fsacc = fsacc.push(p4@);
    }
    let mut p5 = String::new();
    push_dec(&mut p5, e.cfg.long_min);
    push_field(&mut out, p5.as_str());
    proof {
        lemma_encode_fields_push(fsacc, p5@);
        fsacc = fsacc.push(p5@);
    }
    let mut p6 = String::new();
    push_dec(&mut p6, e.cfg.cycles as u64);
    push_field(&mut out, p6.as_str());
    proof {
        lemma_encode_fields_push(fsacc, p6@);
        fsacc = fsacc.push(p6@);
    }
    // task
    let mut p7 = String::new();
    match &e.cfg.task {
        Some(t) => {
            p7.append("s");
            let et = escape_str(t.as_str());
            p7.append(et.as_str());
            proof {
                assert(p7@ =~= opt_str_payload(e@.cfg.task));
            }
        },
        None => {
            p7.append("n");
            proof {
                assert(p7@ =~= opt_str_payload(e@.cfg.task));
            }
        },
    }
    push_field(&mut out, p7.as_str());
    proof {
        lemma_encode_fields_push(fsacc, p7@);
        fsacc = fsacc.push(p7@);
    }
    // last updated
    let mut p8 = String::new();
    push_dec_signed(&mut p8, e.last_updated);
    push_field(&mut out, p8.as_str());
    proof {
        lemma_encode_fields_push(fsacc, p8@);
        fsacc = fsacc.push(p8@);
    }
    // segment count
    let mut p9 = String::new();
    push_dec(&mut p9, e.segments.len() as u64);
    push_field(&mut out, p9.as_str());
    proof {
        lemma_encode_fields_push(fsacc, p9@);
        fsacc = fsacc.push(p9@);
        assert(fsacc =~= target.subrange(0, 10));
    }
    // segments
    let mut k: usize = 0;
    while k < e.segments.len()
        invariant
            0 <= k <= e.segments@.len(),
            target == entry_payloads(e@),
            target.len() == 10 + e.segments@.len(),
            out@ == encode_fields(fsacc),
            fsacc == target.subrange(0, 10 + k as int),
        decreases e.segments@.len() - k,
    {
        let es = escape_str(e.segments[k].as_str());
        push_field(&mut out, es.as_str());
        proof {
            lemma_encode_fields_push(fsacc, es@);
            assert(target[10 + k as int] == esc(e@.segments[k as int]));
            assert(es@ == target[10 + k as int]);
            fsacc = fsacc.push(es@);
            assert(fsacc =~= target.subrange(0, 10 + k as int + 1));
        }
        k = k + 1;
    }
    proof {
        assert(fsacc =~= target);
    }
    out
}

/// Reads one field at character position `i`; the executable form of
/// `read_field`.
fn read_field_x(s: &str, i: usize, n: usize) -> (r: Option<(String, usize)>)
    requires
        i <= n,
        n == s@.len(),
    ensures
        match read_field(s@, i as int) {
            None => r is None,
            Some((p, next)) => r.is_some() && r.unwrap().0@ == p && r.unwrap().1 == next,
        },
{
    let mut k: usize = i;
    while k < n
        invariant
            i <= k <= n,
            n == s@.len(),
            forall|m: int| i <= m < k ==> is_digit(#[trigger] s@[m]),
        ensures
            i <= k <= n,
            forall|m: int| i <= m < k ==> is_digit(#[trigger] s@[m]),
            k == n || !is_digit(s@[k as int]),
        decreases n - k,
    {
        let c = s.get_char(k);
        if !(48 <= c as u32 && c as u32 <= 57) {
            break;
        }
        k = k + 1;
    }
    proof {
        lemma_digits_end_eq(s@, i as int, k as int);
    }
    if k == i {
        return None;
    }
    if k - i > 19 {
        return None;
    }
    if k == n {
        return None;
    }
    let cj = s.get_char(k);
    if cj != ':' {
        return None;
    }
    let run = s.substring_char(i, k);
    proof {
        assert(run@ =~= s@.subrange(i as int, k as int));
        assert(forall|m: int| 0 <= m < run@.len() ==> is_digit(#[trigger] run@[m]));
        assert(parse_dec_checked(run@) == Some(parse_dec(run@)));
    }
    let lv = match parse_u64_payload(run) {
        Some(v) => v,
        None => {
            return None;
        },
    };
    proof {
        assert(lv as nat == parse_dec(run@));
    }
    if lv > (n - k - 1) as u64 {
        return None;
    }
    let next = k + 1 + (lv as usize);
    let payload = s.substring_char(k + 1, next);
    proof {
        assert(payload@ =~= s@.subrange(k as int + 1, next as int));
    }
    Some((payload.to_owned(), next))
}

/// Splits a line into its fields; the executable form of
/// `read_all_fields`.
fn read_all_fields_x(s: &str) -> (r: Option<Vec<String>>)
    ensures
        match read_all_fields(s@, 0) {
            None => r is None,
            Some(fs) => r.is_some() && r.unwrap()@.map_values(|x: String| x@) == fs,
        },
{
    let n = s.unicode_len();
    let mut acc: Vec<String> = Vec::new();
    let mut i: usize = 0;
    proof {
        match read_all_fields(s@, 0) {
            Some(rest) => {
                assert(acc@.map_values(|x: String| x@) + rest =~= rest);
            },
            None => {},
        }
    }
    while i < n
        invariant
            0 <= i <= n,
            n == s@.len(),
            match read_all_fields(s@, i as int) {
                Some(rest) => read_all_fields(s@, 0) == Some(
                    acc@.map_values(|x: String| x@) + rest,
                ),
                None => read_all_fields(s@, 0) is None,
            },
        decreases n - i,
    {
        match read_field_x(s, i, n) {
            None => {
                proof {
                    assert(read_all_fields(s@, i as int) is None);
                }
                return None;
            },
            Some((p, next)) => {
                proof {
                    lemma_read_field_advances(s@, i as int);
                }
                let ghost acc0 = acc@.map_values(|x: String| x@);
                acc.push(p);
                proof {
                    assert(acc@.map_values(|x: String| x@) =~= acc0.push(p@));
                    match read_all_fields(s@, next as int) {
                        Some(rest2) => {
                            assert(read_all_fields(s@, i as int) == Some(seq![p@] + rest2));
                            assert(acc0 + (seq![p@] + rest2) =~= acc0.push(p@) + rest2);
                        },
                        None => {
                            assert(read_all_fields(s@, i as int) is None);
                        },
                    }
                }
                i = next;
            },
        }
    }
    proof {
        assert(read_all_fields(s@, n as int) == Some(Seq::<Seq<char>>::empty()));
        let ghost accv = acc@.map_values(|x: String| x@);
        assert(accv + Seq::<Seq<char>>::empty() =~= accv);
    }
    Some(acc)
}

/// Reads a state payload; the executable form of `parse_state`.
fn parse_state_x(p: &str) -> (r: Option<SessionState>)
    ensures
        r == parse_state(p@),
{
    if p.unicode_len() == 1 {
        let c = p.get_char(0);
        if c == 'O' {
            Some(SessionState::Ongoing)
        } else if c == 'C' {
            Some(SessionState::Completed)
        } else if c == 'I' {
            Some(SessionState::Interrupted)
        } else {
            None
        }
    } else {
        None
    }
}

/// Reads an optional timestamp payload; the executable form of
/// `parse_opt_i64`.
fn parse_opt_i64_x(p: &str) -> (r: Option<Option<i64>>)
    ensures
        match parse_opt_i64(p@) {
            None => r is None,
            Some(ov) => r.is_some() && match ov {
                None => r.unwrap() is None,
                Some(v) => r.unwrap().is_some() && r.unwrap().unwrap() as int == v,
            },
        },
{
    let n = p.unicode_len();
    if n == 0 {
        return None;
    }
    let c = p.get_char(0);
    if c == 'n' {
        if n == 1 {
            Some(None)
        } else {
            None
        }
    } else if c == 's' {
        let rest = p.substring_char(1, n);
        proof {
            assert(rest@ =~= p@.skip(1));
        }
        match parse_i64_payload(rest) {
            Some(v) => Some(Some(v)),
            None => None,
        }
    } else {
        None
    }
}

/// Reads an optional string payload; the executable form of
/// `parse_opt_str`.
fn parse_opt_str_x(p: &str) -> (r: Option<Option<String>>)
    ensures
        match parse_opt_str(p@) {
            None => r is None,
            Some(ov) => r.is_some() && match ov {
                None => r.unwrap() is None,
                Some(v) => r.unwrap().is_some() && r.unwrap().unwrap()@ == v,
            },
        },
{
    let n = p.unicode_len();
    if n == 0 {
        return None;
    }
    let c = p.get_char(0);
    if c == 'n' {
        if n == 1 {
            Some(None)
        } else {
            None
        }
    } else if c == 's' {
        let rest = p.substring_char(1, n);
        proof {
            assert(rest@ =~= p@.skip(1));
        }
        match unescape_str(rest) {
            Some(v) => Some(Some(v)),
            None => None,
        }
    } else {
        None
    }
}

/// Parses one journal line back into a record, or reports it corrupt; the
/// executable form of `decode_entry_v`.
#[verifier::loop_isolation(false)]
pub fn decode_entry(line: &str) -> (r: Option<SessionEntry>)
    ensures
        match decode_entry_v(line@) {
            None => r is None,
            Some(v) => r.is_some() && r.unwrap()@ == v,
        },
{
    let fields = match read_all_fields_x(line) {
        Some(f) => f,
        None => {
            return None;
        },
    };
    let ghost fs = fields@.map_values(|x: String| x@);
    proof {
        assert forall|i: int| 0 <= i < fields@.len() implies fs[i] == (#[trigger] fields@[i])@ by {
        }
    }
    if fields.len() < 10 {
        return None;
    }
    let start = match parse_i64_payload(fields[0].as_str()) {
        Some(v) => v,
        None => {
            return None;
        },
    };
    let end = match parse_opt_i64_x(fields[1].as_str()) {
        Some(v) => v,
        None => {
            return None;
        },
    };
    let st = match parse_state_x(fields[2].as_str()) {
        Some(v) => v,
        None => {
            return None;
        },
    };
    let focus = match parse_u64_payload(fields[3].as_str()) {
        Some(v) => v,
        None => {
            return None;
        },
    };
    let short = match parse_u64_payload(fields[4].as_str()) {
        Some(v) => v,
        None => {
            return None;
        },
    };
    let long = match parse_u64_payload(fields[5].as_str()) {
        Some(v) => v,
        None => {
            return None;
        },
    };
    let cycles64 = match parse_u64_payload(fields[6].as_str()) {
        Some(v) => v,
        None => {
            return None;
        },
    };
    let task = match parse_opt_str_x(fields[7].as_str()) {
        Some(v) => v,
        None => {
            return None;
        },
    };
    let lu = match parse_i64_payload(fields[8].as_str()) {
        Some(v) => v,
        None => {
            return None;
        },
    };
    let nsegs = match parse_u64_payload(fields[9].as_str()) {
        Some(v) => v,
        None => {
            return None;
        },
    };
    if cycles64 > 255 {
        return None;
    }
    let cycles: u8 = cycles64 as u8;
    if (fields.len() - 10) as u64 != nsegs {
        return None;
    }
    let count: usize = fields.len() - 10;
    let mut segs: Vec<String> = Vec::new();
    let mut k: usize = 0;
    while k < count
        invariant
            0 <= k <= count,
            count == fields@.len() - 10,
            fs == fields@.map_values(|x: String| x@),
            segs@.len() == k,
            forall|m: int| 0 <= m < k ==> (#[trigger] unesc(fs[10 + m])) is Some,
            forall|m: int| 0 <= m < k ==> (#[trigger] segs@[m])@ == unesc(fs[10 + m]).unwrap(),
        decreases count - k,
    {
        match unescape_str(fields[10 + k].as_str()) {
            Some(v) => {
                segs.push(v);
            },
            None => {
                proof {
                    assert(unesc(fs[10 + k as int]) is None);
                    assert(interp_fields(fs) is None);
                }
                return None;
            },
        }
        k = k + 1;
    }
    let entry = SessionEntry {
        start,
        end,
        cfg: Config { focus_min: focus, short_min: short, long_min: long, cycles, task },
        state: st,
        segments: segs,
        last_updated: lu,
    };
    proof {
        assert(forall|i: int| 0 <= i < nsegs ==> (#[trigger] unesc(fs[10 + i])) is Some);
        assert(interp_fields(fs) is Some);
        assert(entry@.segments =~= interp_fields(fs).unwrap().segments);
        assert(entry@ =~= interp_fields(fs).unwrap());
    }
    Some(entry)
}

} // verus!

verus! {

/// No decimal rendering contains a newline.
proof fn lemma_dec_no_newline(n: nat)
    ensures
        forall|k: int| 0 <= k < dec_digits(n).len() ==> #[trigger] dec_digits(n)[k] != '\n',
{
    lemma_dec_digits_are_digits(n);
}

/// No signed decimal rendering contains a newline.
proof fn lemma_dec_signed_no_newline(n: int)
    ensures
        forall|k: int| 0 <= k < dec_signed(n).len() ==> #[trigger] dec_signed(n)[k] != '\n',
{
    if n < 0 {
        lemma_dec_no_newline((-n) as nat);
        assert forall|k: int|
            0 <= k < dec_signed(n).len() implies #[trigger] dec_signed(n)[k] != '\n' by {
            if k == 0 {
                assert(dec_signed(n)[0] == '-');
            } else {
                assert(dec_signed(n)[k] == dec_digits((-n) as nat)[k - 1]);
            }
        }
    } else {
        lemma_dec_no_newline(n as nat);
    }
}

/// The line-framing law: a record's journal line never contains a newline,
/// whatever the record holds, so appending it as one line leaves every
/// earlier line of the day's file intact and recoverable.
pub proof fn lemma_entry_line_no_newline(e: EntryV)
    ensures
        forall|m: int|
            0 <= m < encode_entry_v(e).len() ==> #[trigger] encode_entry_v(e)[m] != '\n',
{
    let fs = entry_payloads(e);
    assert forall|i: int, k: int|
        0 <= i < fs.len() && 0 <= k < fs[i].len() implies #[trigger] fs[i][k] != '\n' by {
        lemma_dec_signed_no_newline(e.start);
        lemma_dec_signed_no_newline(e.last_updated);
        lemma_dec_no_newline(e.cfg.focus_min as nat);
        lemma_dec_no_newline(e.cfg.short_min as nat);
        lemma_dec_no_newline(e.cfg.long_min as nat);
        lemma_dec_no_newline(e.cfg.cycles as nat);
        lemma_dec_no_newline(e.segments.len());
        if i == 1 {
            match e.end {
                None => {},
                Some(t) => {
                    lemma_dec_signed_no_newline(t);
                    if k > 0 {
                        assert(fs[1][k] == dec_signed(t)[k - 1]);
                    }
                },
            }
        }
        if i == 7 {
            match e.cfg.task {
                None => {},
                Some(t) => {
                    lemma_esc_no_newline(t);
                    if k > 0 {
                        assert(fs[7][k] == esc(t)[k - 1]);
                    }
                },
            }
        }
        if i >= 10 {
            assert(fs[i] == esc(e.segments[i - 10]));
            lemma_esc_no_newline(e.segments[i - 10]);
        }
    }
    lemma_encode_fields_no_newline(fs);
}

} // verus!
