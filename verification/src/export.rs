//! Read-side rendering of a day's journal: every line is decoded (a corrupt
//! line aborts the export rather than being skipped) and every record is
//! rendered, one entry per record, into a markdown document or a CSV table.
//! The output is a function of the journal's lines alone, so exporting
//! twice without a new session gives byte-identical documents.
use vstd::prelude::*;
use crate::digits::dec_signed;
use crate::digits::push_dec_signed;
use crate::storage::EntryV;
use crate::storage::Journal;
use crate::storage::JournalError;
use crate::storage::SessionEntry;
use crate::storage::SessionState;
use crate::codec::decode_entry_v;

verus! {

/// The printed name of a session state.
pub open spec fn state_name(st: SessionState) -> Seq<char> {
    match st {
        SessionState::Ongoing => "Ongoing"@,
        SessionState::Completed => "Completed"@,
        SessionState::Interrupted => "Interrupted"@,
    }
}

/// An optional end stamp as text: a dash while the session has no end.
pub open spec fn end_text(e: Option<int>) -> Seq<char> {
    match e {
        None => "-"@,
        Some(t) => dec_signed(t),
    }
}

/// An optional task label as text: a dash when there is none.
pub open spec fn task_text(t: Option<Seq<char>>) -> Seq<char> {
    match t {
        None => "-"@,
        Some(x) => x,
    }
}

/// The tail of a joined segment list: a separator before each element.
pub open spec fn join_tail(ss: Seq<Seq<char>>) -> Seq<char>
    decreases ss.len(),
{
    if ss.len() == 0 {
        Seq::empty()
    } else {
        " | "@ + ss[0] + join_tail(ss.skip(1))
    }
}

/// The segment log joined with separators.
pub open spec fn join_segs(ss: Seq<Seq<char>>) -> Seq<char> {
    if ss.len() == 0 {
        Seq::empty()
    } else {
        ss[0] + join_tail(ss.skip(1))
    }
}

/// A comma becomes a space inside a CSV cell.
pub open spec fn csv_char(c: char) -> char {
    if c == ',' {
        ' '
    } else {
        c
    }
}

/// A CSV cell's sanitized text.
pub open spec fn sanitize(s: Seq<char>) -> Seq<char>
    decreases s.len(),
{
    if s.len() == 0 {
        Seq::empty()
    } else {
        seq![csv_char(s[0])] + sanitize(s.skip(1))
    }
}

/// One record's markdown entry.
pub open spec fn md_of_entry(e: EntryV) -> Seq<char> {
    "- start: "@ + dec_signed(e.start) + "; end: "@ + end_text(e.end) + "; state: "@ + state_name(
        e.state,
    ) + "; task: "@ + task_text(e.cfg.task) + "; segments: "@ + join_segs(e.segments) + "\n"@
}

/// The markdown entries of a record list, in order.
pub open spec fn md_body(es: Seq<EntryV>) -> Seq<char>
    decreases es.len(),
{
    if es.len() == 0 {
        Seq::empty()
    } else {
        md_of_entry(es[0]) + md_body(es.skip(1))
    }
}

/// The whole markdown document.
pub open spec fn markdown_of_entries(es: Seq<EntryV>) -> Seq<char> {
    "# Pomodoro journal (today)\n\n"@ + md_body(es)
}

/// One record's CSV row.
pub open spec fn csv_of_entry(e: EntryV) -> Seq<char> {
    dec_signed(e.start) + ","@ + (match e.end {
        None => Seq::<char>::empty(),
        Some(t) => dec_signed(t),
    }) + ","@ + state_name(e.state) + ","@ + (match e.cfg.task {
        None => Seq::<char>::empty(),
        Some(t) => sanitize(t),
    }) + ","@ + join_segs(e.segments) + "\n"@
}

/// The CSV rows of a record list, in order.
pub open spec fn csv_body(es: Seq<EntryV>) -> Seq<char>
    decreases es.len(),
{
    if es.len() == 0 {
        Seq::empty()
    } else {
        csv_of_entry(es[0]) + csv_body(es.skip(1))
    }
}

/// The whole CSV document.
pub open spec fn csv_of_entries(es: Seq<EntryV>) -> Seq<char> {
    "start,end,state,task,segments\n"@ + csv_body(es)
}

/// The records a journal's lines decode to, when they all decode.
pub open spec fn decoded_entries(lines: Seq<Seq<char>>) -> Seq<EntryV> {
    Seq::new(lines.len(), |i: int| decode_entry_v(lines[i]).unwrap())
}

/// The read-idempotence law: the export documents are functions of the
/// journal's lines alone, so reading the same journal twice renders
/// byte-identical output.
pub proof fn lemma_export_idempotent(lines1: Seq<Seq<char>>, lines2: Seq<Seq<char>>)
    requires
        lines1 == lines2,
    ensures
        markdown_of_entries(decoded_entries(lines1)) == markdown_of_entries(
            decoded_entries(lines2),
        ),
        csv_of_entries(decoded_entries(lines1)) == csv_of_entries(decoded_entries(lines2)),
{
}

/// Appending one element to a joined list appends a separator and the
/// element.
proof fn lemma_join_tail_push(ss: Seq<Seq<char>>, x: Seq<char>)
    ensures
        join_tail(ss.push(x)) == join_tail(ss) + " | "@ + x,
    decreases ss.len(),
{
    assert(join_tail(Seq::<Seq<char>>::empty()) == Seq::<char>::empty());
    if ss.len() == 0 {
        assert(ss.push(x)[0] == x);
        assert(ss.push(x).skip(1) =~= Seq::<Seq<char>>::empty());
        assert(join_tail(ss.push(x)) == " | "@ + x + join_tail(Seq::<Seq<char>>::empty()));
        assert(join_tail(ss.push(x)) =~= join_tail(ss) + " | "@ + x);
    } else {
        assert(ss.push(x)[0] == ss[0]);
        assert(ss.push(x).skip(1) =~= ss.skip(1).push(x));
        lemma_join_tail_push(ss.skip(1), x);
        assert(join_tail(ss.push(x)) == " | "@ + ss[0] + (join_tail(ss.skip(1)) + " | "@ + x));
        assert(join_tail(ss.push(x)) =~= join_tail(ss) + " | "@ + x);
    }
}

/// The same, at the head of the joined list.
proof fn lemma_join_segs_push(ss: Seq<Seq<char>>, x: Seq<char>)
    ensures
        join_segs(ss.push(x)) == if ss.len() == 0 {
            x
        } else {
            join_segs(ss) + " | "@ + x
        },
{
    if ss.len() == 0 {
        assert(ss.push(x)[0] == x);
        assert(ss.push(x).skip(1) =~= Seq::<Seq<char>>::empty());
        assert(join_tail(Seq::<Seq<char>>::empty()) == Seq::<char>::empty());
        assert(join_segs(ss.push(x)) =~= x);
    } else {
        assert(ss.push(x)[0] == ss[0]);
        assert(ss.push(x).skip(1) =~= ss.skip(1).push(x));
        lemma_join_tail_push(ss.skip(1), x);
        assert(join_segs(ss.push(x)) =~= join_segs(ss) + " | "@ + x);
    }
}

/// Sanitizing distributes over appending one character.
proof fn lemma_sanitize_push(s: Seq<char>, c: char)
    ensures
        sanitize(s.push(c)) == sanitize(s) + seq![csv_char(c)],
    decreases s.len(),
{
    assert(sanitize(Seq::<char>::empty()) == Seq::<char>::empty());
    if s.len() == 0 {
        assert(s.push(c)[0] == c);
        assert(s.push(c).skip(1) =~= Seq::<char>::empty());
        assert(s =~= Seq::<char>::empty());
        assert(sanitize(s.push(c)) =~= sanitize(s) + seq![csv_char(c)]);
    } else {
        assert(s.push(c)[0] == s[0]);
        assert(s.push(c).skip(1) =~= s.skip(1).push(c));
        lemma_sanitize_push(s.skip(1), c);
        assert(sanitize(s.push(c)) == seq![csv_char(s[0])] + (sanitize(s.skip(1)) + seq![
            csv_char(c),
        ]));
        assert(sanitize(s.push(c)) =~= sanitize(s) + seq![csv_char(c)]);
    }
}

/// Rendering one more record extends the markdown body by its entry.
proof fn lemma_md_body_push(es: Seq<EntryV>, e: EntryV)
    ensures
        md_body(es.push(e)) == md_body(es) + md_of_entry(e),
    decreases es.len(),
{
    assert(md_body(Seq::<EntryV>::empty()) == Seq::<char>::empty());
    if es.len() == 0 {
        assert(es.push(e)[0] == e);
        assert(es.push(e).skip(1) =~= Seq::<EntryV>::empty());
        assert(md_body(es.push(e)) == md_of_entry(e) + md_body(Seq::<EntryV>::empty()));
        assert(es =~= Seq::<EntryV>::empty());
        assert(md_body(es.push(e)) =~= md_body(es) + md_of_entry(e));
    } else {
        assert(es.push(e)[0] == es[0]);
        assert(es.push(e).skip(1) =~= es.skip(1).push(e));
        lemma_md_body_push(es.skip(1), e);
        assert(md_body(es.push(e)) == md_of_entry(es[0]) + (md_body(es.skip(1)) + md_of_entry(e)));
        assert(md_body(es.push(e)) =~= md_body(es) + md_of_entry(e));
    }
}

/// Rendering one more record extends the CSV body by its row.
proof fn lemma_csv_body_push(es: Seq<EntryV>, e: EntryV)
    ensures
        csv_body(es.push(e)) == csv_body(es) + csv_of_entry(e),
    decreases es.len(),
{
    assert(csv_body(Seq::<EntryV>::empty()) == Seq::<char>::empty());
    if es.len() == 0 {
        assert(es.push(e)[0] == e);
        assert(es.push(e).skip(1) =~= Seq::<EntryV>::empty());
        assert(csv_body(es.push(e)) == csv_of_entry(e) + csv_body(Seq::<EntryV>::empty()));
        assert(es =~= Seq::<EntryV>::empty());
        assert(csv_body(es.push(e)) =~= csv_body(es) + csv_of_entry(e));
    } else {
        assert(es.push(e)[0] == es[0]);
        assert(es.push(e).skip(1) =~= es.skip(1).push(e));
        lemma_csv_body_push(es.skip(1), e);
        assert(csv_body(es.push(e)) == csv_of_entry(es[0]) + (csv_body(es.skip(1)) + csv_of_entry(
            e,
        )));
        assert(csv_body(es.push(e)) =~= csv_body(es) + csv_of_entry(e));
    }
}

/// The printed name of a session state.
pub fn state_name_str(st: SessionState) -> (r: &'static str)
    ensures
        r@ == state_name(st),
{
    match st {
        SessionState::Ongoing => "Ongoing",
        SessionState::Completed => "Completed",
        SessionState::Interrupted => "Interrupted",
    }
}

/// Joins the segment log with separators; the executable form of
/// `join_segs`.
#[verifier::loop_isolation(false)]
fn join_segments(ss: &Vec<String>) -> (r: String)
    ensures
        r@ == join_segs(ss@.map_values(|s: String| s@)),
{
    let ghost view = ss@.map_values(|s: String| s@);
    proof {
        assert(forall|i: int| 0 <= i < ss@.len() ==> view[i] == (#[trigger] ss@[i])@);
    }
    let mut out = String::new();
    let mut i: usize = 0;
    proof {
        assert(view.subrange(0, 0) =~= Seq::<Seq<char>>::empty());
        assert(join_segs(view.subrange(0, 0)) == Seq::<char>::empty());
    }
    while i < ss.len()
        invariant
            0 <= i <= ss@.len(),
            out@ == join_segs(view.subrange(0, i as int)),
        decreases ss@.len() - i,
    {
        if i > 0 {
            out.append(" | ");
        }
        out.append(ss[i].as_str());
        proof {
            lemma_join_segs_push(view.subrange(0, i as int), view[i as int]);
            assert(view.subrange(0, i as int).push(view[i as int]) =~= view.subrange(
                0,
                i as int + 1,
            ));
            assert(out@ =~= join_segs(view.subrange(0, i as int + 1)));
        }
        i = i + 1;
    }
    proof {
        assert(view.subrange(0, ss@.len() as int) =~= view);
    }
    out
}

/// Sanitizes a CSV cell; the executable form of `sanitize`.
fn sanitize_cell(s: &str) -> (r: String)
    ensures
        r@ == sanitize(s@),
{
    let n = s.unicode_len();
    let mut out = String::new();
    let mut i: usize = 0;
    proof {
        assert(out@ =~= sanitize(s@.subrange(0, 0)));
    }
    while i < n
        invariant
            0 <= i <= n,
            n == s@.len(),
            out@ == sanitize(s@.subrange(0, i as int)),
        decreases n - i,
    {
        let c = s.get_char(i);
        if c == ',' {
            out.append(" ");
        } else {
            crate::codec::push_plain_char(&mut out, c);
        }
        proof {
            reveal_strlit(" ");
            assert(" "@ =~= seq![' ']);
            lemma_sanitize_push(s@.subrange(0, i as int), s@[i as int]);
            assert(s@.subrange(0, i as int).push(s@[i as int]) =~= s@.subrange(0, i as int + 1));
            assert(out@ =~= sanitize(s@.subrange(0, i as int + 1)));
        }
        i = i + 1;
    }
    proof {
        assert(s@.subrange(0, n as int) =~= s@);
    }
    out
}

/// Renders one record's markdown entry.
fn md_line(e: &SessionEntry) -> (r: String)
    ensures
        r@ == md_of_entry(e@),
{
    let mut out = String::new();
    out.append("- start: ");
    push_dec_signed(&mut out, e.start);
    out.append("; end: ");
    match e.end {
        Some(t) => push_dec_signed(&mut out, t),
        None => out.append("-"),
    }
    out.append("; state: ");
    out.append(state_name_str(e.state));
    out.append("; task: ");
    match &e.cfg.task {
        Some(t) => out.append(t.as_str()),
        None => out.append("-"),
    }
    out.append("; segments: ");
    let joined = join_segments(&e.segments);
    out.append(joined.as_str());
    out.append("\n");
    proof {
        assert(out@ =~= md_of_entry(e@));
    }
    out
}

/// Renders one record's CSV row.
fn csv_line(e: &SessionEntry) -> (r: String)
    ensures
        r@ == csv_of_entry(e@),
{
    let mut out = String::new();
    push_dec_signed(&mut out, e.start);
    out.append(",");
    match e.end {
        Some(t) => push_dec_signed(&mut out, t),
        None => {},
    }
    out.append(",");
    out.append(state_name_str(e.state));
    out.append(",");
    match &e.cfg.task {
        Some(t) => {
            let cell = sanitize_cell(t.as_str());
            out.append(cell.as_str());
        },
        None => {},
    }
    out.append(",");
    let joined = join_segments(&e.segments);
    out.append(joined.as_str());
    out.append("\n");
    proof {
        assert(out@ =~= csv_of_entry(e@));
    }
    out
}

impl Journal {
    /// Renders today's journal as a markdown document, every record in
    /// order; a corrupt line aborts the export with its index.
    #[verifier::loop_isolation(false)]
    pub fn export_markdown(&self) -> (r: Result<String, JournalError>)
        ensures
            match r {
                Ok(doc) => {
                    &&& forall|i: int|
                        0 <= i < self@.len() ==> (#[trigger] decode_entry_v(self@[i])) is Some
                    &&& doc@ == markdown_of_entries(decoded_entries(self@))
                },
                Err(JournalError::CorruptLine(i)) => {
                    &&& i < self@.len()
                    &&& decode_entry_v(self@[i as int]) is None
                    &&& forall|m: int|
                        0 <= m < i ==> (#[trigger] decode_entry_v(self@[m])) is Some
                },
            },
    {
        let entries = match self.parse_all() {
            Ok(es) => es,
            Err(e) => {
                return Err(e);
            },
        };
        let ghost dec = decoded_entries(self@);
        proof {
            assert(forall|i: int|
                0 <= i < entries@.len() ==> dec[i] == (#[trigger] entries@[i])@);
        }
        let mut out = String::new();
        out.append("# Pomodoro journal (today)\n\n");
        let mut i: usize = 0;
        proof {
            assert(dec.subrange(0, 0) =~= Seq::<EntryV>::empty());
            assert(md_body(dec.subrange(0, 0)) == Seq::<char>::empty());
            assert(out@ =~= "# Pomodoro journal (today)\n\n"@ + md_body(dec.subrange(0, 0)));
        }
        while i < entries.len()
            invariant
                0 <= i <= entries@.len(),
                out@ == "# Pomodoro journal (today)\n\n"@ + md_body(dec.subrange(0, i as int)),
            decreases entries@.len() - i,
        {
            let line = md_line(&entries[i]);
            out.append(line.as_str());
            proof {
                lemma_md_body_push(dec.subrange(0, i as int), dec[i as int]);
                assert(dec.subrange(0, i as int).push(dec[i as int]) =~= dec.subrange(
                    0,
                    i as int + 1,
                ));
                assert(out@ =~= "# Pomodoro journal (today)\n\n"@ + md_body(
                    dec.subrange(0, i as int + 1),
                ));
            }
            i = i + 1;
        }
        proof {
            assert(dec.subrange(0, entries@.len() as int) =~= dec);
        }
        Ok(out)
    }

    /// Renders today's journal as a CSV table, every record in order; a
    /// corrupt line aborts the export with its index.
    #[verifier::loop_isolation(false)]
    pub fn export_csv(&self) -> (r: Result<String, JournalError>)
        ensures
            match r {
                Ok(doc) => {
                    &&& forall|i: int|
                        0 <= i < self@.len() ==> (#[trigger] decode_entry_v(self@[i])) is Some
                    &&& doc@ == csv_of_entries(decoded_entries(self@))
                },
                Err(JournalError::CorruptLine(i)) => {
                    &&& i < self@.len()
                    &&& decode_entry_v(self@[i as int]) is None
                    &&& forall|m: int|
                        0 <= m < i ==> (#[trigger] decode_entry_v(self@[m])) is Some
                },
            },
    {
        let entries = match self.parse_all() {
            Ok(es) => es,
            Err(e) => {
                return Err(e);
            },
        };
        let ghost dec = decoded_entries(self@);
        proof {
            assert(forall|i: int|
                0 <= i < entries@.len() ==> dec[i] == (#[trigger] entries@[i])@);
        }
        let mut out = String::new();
        out.append("start,end,state,task,segments\n");
        let mut i: usize = 0;
        proof {
            assert(dec.subrange(0, 0) =~= Seq::<EntryV>::empty());
            assert(csv_body(dec.subrange(0, 0)) == Seq::<char>::empty());
            assert(out@ =~= "start,end,state,task,segments\n"@ + csv_body(dec.subrange(0, 0)));
        }
        while i < entries.len()
            invariant
                0 <= i <= entries@.len(),
                out@ == "start,end,state,task,segments\n"@ + csv_body(dec.subrange(0, i as int)),
            decreases entries@.len() - i,
        {
            let line = csv_line(&entries[i]);
            out.append(line.as_str());
            proof {
                lemma_csv_body_push(dec.subrange(0, i as int), dec[i as int]);
                assert(dec.subrange(0, i as int).push(dec[i as int]) =~= dec.subrange(
                    0,
                    i as int + 1,
                ));
                assert(out@ =~= "start,end,state,task,segments\n"@ + csv_body(
                    dec.subrange(0, i as int + 1),
                ));
            }
            i = i + 1;
        }
        proof {
            assert(dec.subrange(0, entries@.len() as int) =~= dec);
        }
        Ok(out)
    }
}

} // verus!
