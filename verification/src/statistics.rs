use vstd::prelude::*;

verus! {

/// A hit counter over a total: how many of the recorded events succeeded.
#[derive(Clone, Copy, Debug, PartialEq, Eq, Structural)]
pub struct Ratio {
    pub number: u32,
    pub total: u32,
}

impl Ratio {
    /// The count of successes never exceeds the count of events.
    pub open spec fn wf(self) -> bool {
        self.number <= self.total
    }

    /// Records one event; the success count grows exactly when the event
    /// succeeded.
    pub fn add(&mut self, succes: bool)
        requires
            old(self).wf(),
            old(self).total < u32::MAX,
        ensures
            final(self).wf(),
            final(self).total == old(self).total + 1,
            final(self).number == old(self).number + (if succes { 1int } else { 0int }),
    {
        if succes {
            self.number = self.number + 1;
        }
        self.total = self.total + 1;
    }
}

impl Default for Ratio {
    /// A fresh counter: nothing recorded yet.
    fn default() -> (r: Ratio)
        ensures
            r.number == 0,
            r.total == 0,
            r.wf(),
    {
        Ratio { number: 0, total: 0 }
    }
}

} // verus!
