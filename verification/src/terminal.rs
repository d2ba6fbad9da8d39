//! The terminal collaborator's verified part: the prefix shown beside the
//! progress bar. Drawing the bar and waiting out the countdown are the
//! application's work; they consume these values and return nothing that
//! affects the session.
use vstd::prelude::*;

verus! {

/// The prefix beside a running segment's progress bar: the segment label
/// in brackets, then the task label, if any.
pub open spec fn prefix_text(label: Seq<char>, task: Option<Seq<char>>) -> Seq<char> {
    "["@ + label + "] "@ + (match task {
        Some(t) => t,
        None => Seq::empty(),
    })
}

/// The terminal renderer's state: the task label it shows beside every
/// segment.
pub struct Terminal {
    pub task: Option<String>,
}

impl Terminal {
    /// A renderer for a run with the given task label.
    pub fn new(task: Option<String>) -> (r: Self)
        ensures
            r.task == task,
    {
        Terminal { task }
    }

    /// The prefix for one segment's display.
    pub fn prefix(&self, label: &str) -> (r: String)
        ensures
            r@ == prefix_text(label@, match self.task {
                Some(t) => Some(t@),
                None => None,
            }),
    {
        let mut out = String::new();
        out.append("[");
        out.append(label);
        out.append("] ");
        match &self.task {
            Some(t) => out.append(t.as_str()),
            None => {},
        }
        proof {
            match &self.task {
                Some(t) => {
                    assert(out@ =~= prefix_text(label@, Some(t@)));
                },
                None => {
                    assert(out@ =~= prefix_text(label@, None));
                },
            }
        }
        out
    }
}

} // verus!
