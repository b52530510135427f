//! The signal between a result list and the handler of its selection.
//!
//! Showing a list of records wires a handler that answers when the user moves
//! the selection. Lists are shown over and over, and the handler must not be
//! wired again while one is at work: once a handler has answered, the signal
//! is `PendingSuppressed`, and lists are shown without wiring until a record
//! is added to the history. What the handler does on a row is decided here
//! too; the widgets carry it out.

use vstd::prelude::*;

verus! {

/// Where the signal stands.
#[derive(Clone, Copy, Debug, PartialEq, Eq, Structural)]
pub enum SelectionSignal {
    /// No selection has been answered yet.
    Idle,
    /// A handler has answered a selection; the next lists wire none.
    PendingSuppressed,
    /// A record was added, or a row could not be read: the next list wires a
    /// handler.
    Active,
}

/// Where the text shown for a selected row comes from.
#[derive(Clone, Copy, Debug, PartialEq, Eq, Structural)]
pub enum TextSource {
    /// The translation of the row in the list that is shown.
    Shown,
    /// The translation that the history holds for the row's headword.
    Bookmarked,
    /// Nothing: the text is cleared.
    Nothing,
}

/// A selected row, as far as the answer depends on it.
#[derive(Clone, Copy, Debug, PartialEq, Eq, Structural)]
pub struct SelectedRow {
    /// The list that is shown is the history itself.
    pub history_mode: bool,
    /// The row's headword is among the records that are shown.
    pub shown: bool,
    /// The history holds the row's headword.
    pub bookmarked: bool,
}

/// The answer to a selected row.
#[derive(Clone, Copy, Debug, PartialEq, Eq, Structural)]
pub struct Answer {
    /// The signal after the answer.
    pub signal: SelectionSignal,
    /// The text to show.
    pub text: TextSource,
    /// Whether the button that adds to the history is to be enabled or
    /// disabled; `None` leaves it as it is.
    pub add_enabled: Option<bool>,
}

impl SelectionSignal {
    /// Whether a list that is shown now wires a selection handler.
    pub open spec fn wires(self) -> bool {
        self != SelectionSignal::PendingSuppressed
    }

    /// What a handler answers to a selected row.
    ///
    /// Outside the history a row that is bookmarked shows the bookmarked
    /// translation and cannot be added again, and one that is not can be
    /// added. A row answered from the history list, or one that is not
    /// bookmarked, or one that the shown records lack, suppresses further
    /// wiring; otherwise the signal stays.
    pub open spec fn answer(self, row: SelectedRow) -> Answer {
        Answer {
            signal: if row.history_mode || !row.bookmarked || !row.shown {
                SelectionSignal::PendingSuppressed
            } else {
                self
            },
            text: if !row.history_mode && row.bookmarked {
                TextSource::Bookmarked
            } else if row.shown {
                TextSource::Shown
            } else {
                TextSource::Nothing
            },
            add_enabled: if row.history_mode {
                None
            } else {
                Some(!row.bookmarked)
            },
        }
    }

    /// The signal at start.
    pub fn new() -> (signal: SelectionSignal)
        ensures
            signal == SelectionSignal::Idle,
            signal.wires(),
    {
        SelectionSignal::Idle
    }

    /// Whether a list that is shown now wires a selection handler: always,
    /// unless the signal is `PendingSuppressed`.
    pub fn wires_handler(self) -> (wires: bool)
        ensures
            wires == self.wires(),
    {
        match self {
            SelectionSignal::PendingSuppressed => false,
            _ => true,
        }
    }

    /// The answer of a handler to a selected row whose headword could be read.
    pub fn on_row_selected(self, row: SelectedRow) -> (answer: Answer)
        ensures
            answer == self.answer(row),
    {
        let mut signal = self;
        let mut text = TextSource::Nothing;
        let mut add_enabled: Option<bool> = None;
        if row.shown {
            text = TextSource::Shown;
        } else {
            signal = SelectionSignal::PendingSuppressed;
        }
        if row.history_mode {
            signal = SelectionSignal::PendingSuppressed;
        } else if row.bookmarked {
            text = TextSource::Bookmarked;
            add_enabled = Some(false);
        } else {
            add_enabled = Some(true);
            signal = SelectionSignal::PendingSuppressed;
        }
        Answer { signal, text, add_enabled }
    }

    /// The signal after a row was selected whose headword could not be read:
    /// the next list wires a handler.
    pub fn on_unreadable_row(self) -> (signal: SelectionSignal)
        ensures
            signal == SelectionSignal::Active,
            signal.wires(),
    {
        SelectionSignal::Active
    }

    /// The signal after a record was added to the history: the next list wires
    /// a handler.
    pub fn on_record_added(self) -> (signal: SelectionSignal)
        ensures
            signal == SelectionSignal::Active,
            signal.wires(),
    {
        SelectionSignal::Active
    }
}

/// Once the signal is suppressed, no answer to a row lifts it: only an added
/// record or an unreadable row make the lists wire a handler again.
pub proof fn lemma_suppression_lasts(row: SelectedRow)
    ensures
        !SelectionSignal::PendingSuppressed.answer(row).signal.wires(),
{
}

/// An answer leaves the wiring on only for a row outside the history list
/// that is shown and bookmarked, which is the row that the button cannot add.
pub proof fn lemma_answer_keeps_wiring(signal: SelectionSignal, row: SelectedRow)
    requires
        signal.wires(),
    ensures
        signal.answer(row).signal.wires() <==> !row.history_mode && row.shown && row.bookmarked,
        signal.answer(row).signal.wires() ==> signal.answer(row).add_enabled == Some(false),
{
}

} // verus!
