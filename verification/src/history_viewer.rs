use vstd::prelude::*;

use crate::db::{Hand, HandPlayer};

verus! {

/// The stored hands that the history table shows, each with the row of the
/// player it is shown for, when there is one.
pub struct HistoryViewer {
    entries: Vec<(Hand, Option<HandPlayer>)>,
}

impl HistoryViewer {
    pub closed spec fn shown(self) -> Seq<(Hand, Option<HandPlayer>)> {
        self.entries@
    }

    /// A table of the given hands.
    pub fn new(entries: Vec<(Hand, Option<HandPlayer>)>) -> (v: HistoryViewer)
        ensures
            v.shown() == entries@,
    {
        HistoryViewer { entries }
    }

    /// The hands shown, in order.
    pub fn entries(&self) -> (v: &Vec<(Hand, Option<HandPlayer>)>)
        ensures
            v@ == self.shown(),
    {
        &self.entries
    }
}

} // verus!
