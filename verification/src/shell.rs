//! What the user is told while work goes on.

use vstd::prelude::*;

use crate::text::plus3;

verus! {

broadcast use vstd::string::group_string_axioms;

/// How much may be shown, and whether it is shown on a terminal.
#[derive(Clone, Copy, Debug, PartialEq, Eq, Structural)]
pub struct Shell {
    pub quiet: bool,
    pub terminal: bool,
}

/// So many spaces.
pub open spec fn spaces(n: nat) -> Seq<char> {
    Seq::new(n, |i: int| ' ')
}

/// `text` in a column of `width` characters, flush right; a longer text is not cut.
pub open spec fn flush_right(text: Seq<char>, width: nat) -> Seq<char> {
    if text.len() < width {
        spaces((width - text.len()) as nat) + text
    } else {
        text
    }
}

/// A line of status.
pub open spec fn status_text(action: Seq<char>, message: Seq<char>) -> Seq<char> {
    flush_right(action, 12) + " "@ + message
}

/// `text` in a column of `width` characters, flush right.
fn padded(text: &str, width: usize) -> (r: String)
    ensures
        r@ == flush_right(text@, width as nat),
{
    let length = crate::text::chars_of(text).len();
    let mut r = String::new();
    proof {
        reveal_strlit(" ");
        assert(r@ =~= spaces(0));
    }
    let mut i: usize = length;
    while i < width
        invariant
            length == text@.len(),
            length <= i,
            length < width ==> i <= width,
            length >= width ==> i == length,
            r@ == spaces((i - length) as nat),
        decreases width - i,
    {
        r.append(" ");
        i = i + 1;
        proof {
            reveal_strlit(" ");
            assert(r@ =~= spaces((i - length) as nat));
        }
    }
    r.append(text);
    proof {
        if length >= width {
            assert(r@ =~= text@);
        }
    }
    r
}

impl Shell {
    /// A shell that is quiet or not, on a terminal or not.
    pub fn new(quiet: bool, terminal: bool) -> (r: Self)
        ensures
            r.quiet == quiet,
            r.terminal == terminal,
    {
        Shell { quiet, terminal }
    }

    /// The line that tells of `action`, unless the shell is quiet.
    pub fn status(&self, action: &str, message: &str) -> (r: Option<String>)
        ensures
            match r {
                Some(line) => !self.quiet && line@ == status_text(action@, message@),
                None => self.quiet,
            },
    {
        if self.quiet {
            None
        } else {
            Some(plus3(padded(action, 12).as_str(), " ", message))
        }
    }

    /// Whether nothing is to be shown.
    pub fn is_quiet(&self) -> (r: bool)
        ensures
            r == self.quiet,
    {
        self.quiet
    }

    /// Whether a terminal shows what is written.
    pub fn is_terminal(&self) -> (r: bool)
        ensures
            r == self.terminal,
    {
        self.terminal
    }

    /// Whether a progress bar is shown.
    pub fn progress(&self) -> (r: bool)
        ensures
            r == (!self.quiet && self.terminal),
    {
        !self.quiet && self.terminal
    }
}

/// The two parts of a transfer.
#[derive(Clone, Copy, Debug, PartialEq, Eq, Structural)]
pub enum Phase {
    Receiving,
    Indexing,
}

/// The counts that a transfer reports.
#[derive(Clone, Copy, Debug, PartialEq, Eq, Structural)]
pub struct TransferCounts {
    pub received_objects: usize,
    pub total_objects: usize,
    pub indexed_objects: usize,
    pub indexed_deltas: usize,
    pub total_deltas: usize,
}

/// What a progress bar is set to.
#[derive(Clone, Copy, Debug, PartialEq, Eq, Structural)]
pub struct BarState {
    pub phase: Phase,
    pub completed: usize,
    pub total: usize,
    pub redraw: bool,
}

/// What a progress bar shows for the counts of a transfer.
pub open spec fn bar_state(counts: TransferCounts) -> Option<BarState> {
    let (phase, completed, total) = if counts.received_objects < counts.total_objects {
        (Phase::Receiving, counts.received_objects, counts.total_objects)
    } else if counts.total_deltas > 0 {
        (Phase::Indexing, counts.indexed_deltas, counts.total_deltas)
    } else {
        (Phase::Indexing, counts.indexed_objects, counts.total_objects)
    };
    if total == 0 {
        None
    } else {
        Some(BarState { phase, completed, total, redraw: completed == total })
    }
}

impl TransferCounts {
    /// What a progress bar shows for the counts: nothing new where there is nothing to count.
    pub fn update(&self) -> (r: Option<BarState>)
        ensures
            r == bar_state(*self),
    {
        let mut phase = Phase::Indexing;
        let mut completed: usize = self.indexed_objects;
        let mut total: usize = self.total_objects;
        if self.received_objects < self.total_objects {
            phase = Phase::Receiving;
            completed = self.received_objects;
        } else if self.total_deltas > 0 {
            completed = self.indexed_deltas;
            total = self.total_deltas;
        }
        if total == 0 {
            return None;
        }
        Some(BarState { phase, completed, total, redraw: completed == total })
    }
}

} // verus!
