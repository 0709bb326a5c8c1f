//! The interactive result browser's state machine: a selection cursor over a
//! ranked result set, driven by one input at a time. Rendering and key
//! decoding live with the caller; the machine only decides how the cursor
//! moves and when the session ends, and with which outcome.

use vstd::prelude::*;

use crate::rank::ScoredCandidate;

verus! {

/// One abstract input to the browser: the caller decodes raw key events into
/// these before handing them over. Keys with no meaning map to `Other`.
#[derive(Debug, Clone, Copy, PartialEq, Eq, Structural)]
pub enum BrowserInput {
    /// Move the selection forward by one (clamped at the last result).
    Down,
    /// Move the selection back by one (clamped at the first result).
    Up,
    /// Choose the selected result and end the session.
    Confirm,
    /// End the session without choosing anything.
    Quit,
    /// Any other key: ignored.
    Other,
}

/// What one step of the browser decided: keep going, open the result at the
/// given index, or end the session with nothing chosen.
#[derive(Debug, Clone, Copy, PartialEq, Eq, Structural)]
pub enum BrowserStep {
    /// The session continues; render again and read the next input.
    Continue,
    /// Terminal: open the result at this index into the result set.
    Open(usize),
    /// Terminal: the user quit; nothing is chosen.
    Cancelled,
}

/// The state of one interactive browsing session: the ranked results under
/// view and the index of the currently selected row.
pub struct BrowserState {
    /// The ranked result set the session browses; never changed by input.
    pub results: Vec<ScoredCandidate>,
    /// The selected row. Always a valid index while `results` is non-empty;
    /// pinned to 0 when `results` is empty.
    pub selected_index: usize,
}

impl BrowserState {
    /// The selection cursor stays inside the result set.
    pub open spec fn wf(self) -> bool {
        if self.results@.len() == 0 {
            self.selected_index == 0
        } else {
            self.selected_index < self.results@.len()
        }
    }

    /// Starts a session over the given results, with the first row selected.
    pub fn new(results: Vec<ScoredCandidate>) -> (s: BrowserState)
        ensures
            s.wf(),
            s.results == results,
            s.selected_index == 0,
    {
        BrowserState { results, selected_index: 0 }
    }

    /// Feeds one input to the session and reports its decision.
    ///
    /// `Down` and `Up` move the selection by one, clamped to the valid range,
    /// and never end the session. `Confirm` ends the session with the
    /// selected index when there are results, and is a no-op on an empty
    /// result set. `Quit` always ends the session with nothing chosen.
    /// The result set itself never changes.
    pub fn handle_input(&mut self, input: BrowserInput) -> (step: BrowserStep)
        requires
            old(self).wf(),
        ensures
            final(self).wf(),
            final(self).results == old(self).results,
            match input {
                BrowserInput::Down => step == BrowserStep::Continue && final(self).selected_index
                    == (if old(self).selected_index + 1 < old(self).results@.len() {
                    old(self).selected_index + 1
                } else {
                    old(self).selected_index as int
                }),
                BrowserInput::Up => step == BrowserStep::Continue && final(self).selected_index
                    == (if old(self).selected_index > 0 {
                    old(self).selected_index - 1
                } else {
                    0
                }),
                BrowserInput::Confirm => final(self).selected_index == old(self).selected_index
                    && step == (if old(self).results@.len() > 0 {
                    BrowserStep::Open(old(self).selected_index)
                } else {
                    BrowserStep::Continue
                }),
                BrowserInput::Quit => step == BrowserStep::Cancelled && final(self).selected_index
                    == old(self).selected_index,
                BrowserInput::Other => step == BrowserStep::Continue && final(self).selected_index
                    == old(self).selected_index,
            },
    {
        let num_results = self.results.len();
        match input {
            BrowserInput::Down => {
                if self.selected_index + 1 < num_results {
                    self.selected_index = self.selected_index + 1;
                }
                BrowserStep::Continue
            },
            BrowserInput::Up => {
                if self.selected_index > 0 {
                    self.selected_index = self.selected_index - 1;
                }
                BrowserStep::Continue
            },
            BrowserInput::Confirm => {
                if self.results.len() > 0 {
                    BrowserStep::Open(self.selected_index)
                } else {
                    BrowserStep::Continue
                }
            },
            BrowserInput::Quit => BrowserStep::Cancelled,
            BrowserInput::Other => BrowserStep::Continue,
        }
    }
}

} // verus!
