//! Pinging one address a number of times while a number of timeouts is allowed.
use std::time::Duration;

use vstd::prelude::*;

verus! {

/// The replies collected so far, the number of replies wanted, and the timeouts still allowed.
pub struct PingAttempts {
    pub npings: usize,
    pub results: Vec<Duration>,
    pub timeouts_left: usize,
}

impl PingAttempts {
    /// No replies yet, `npings` replies wanted, `ntimeouts` timeouts allowed.
    pub fn new(npings: usize, ntimeouts: usize) -> (r: PingAttempts)
        ensures
            r.npings == npings,
            r.results@.len() == 0,
            r.timeouts_left == ntimeouts,
    {
        PingAttempts { npings, results: Vec::with_capacity(npings), timeouts_left: ntimeouts }
    }

    /// Whether another ping is to be sent: fewer replies than wanted came so far.
    pub fn wants_ping(&self) -> (r: bool)
        ensures
            r == (self.results@.len() < self.npings),
    {
        self.results.len() < self.npings
    }

    /// Takes the outcome of one ping: a reply after some time, or `None` for a timeout.
    /// Returns whether to keep pinging. A reply is kept while replies are still wanted, and
    /// pinging goes on until all wanted replies came. A timeout uses up one of the allowed
    /// timeouts, and a timeout when none is left ends the pinging.
    pub fn record(&mut self, reply: Option<Duration>) -> (keep_going: bool)
        ensures
            final(self).npings == old(self).npings,
            match reply {
                Some(d) => {
                    &&& final(self).results@ == if old(self).results@.len() < old(self).npings {
                        old(self).results@.push(d)
                    } else {
                        old(self).results@
                    }
                    &&& final(self).timeouts_left == old(self).timeouts_left
                    &&& keep_going == (final(self).results@.len() < final(self).npings)
                },
                None => {
                    &&& final(self).results@ == old(self).results@
                    &&& old(self).timeouts_left == 0 ==> !keep_going && final(self).timeouts_left == 0
                    &&& old(self).timeouts_left > 0 ==> {
                        &&& final(self).timeouts_left == old(self).timeouts_left - 1
                        &&& keep_going == (old(self).results@.len() < old(self).npings)
                    }
                },
            },
    {
        match reply {
            Some(d) => {
                if self.results.len() < self.npings {
                    self.results.push(d);
                }
                self.results.len() < self.npings
            },
            None => {
                if self.timeouts_left == 0 {
                    false
                } else {
                    self.timeouts_left = self.timeouts_left - 1;
                    self.results.len() < self.npings
                }
            },
        }
    }

    /// The replies, once all wanted replies came; `None` when pinging ended before that.
    pub fn outcome(self) -> (r: Option<Vec<Duration>>)
        ensures
            self.results@.len() >= self.npings ==> (r matches Some(v) && v@ == self.results@),
            self.results@.len() < self.npings ==> r is None,
    {
        if self.results.len() >= self.npings {
            Some(self.results)
        } else {
            None
        }
    }
}

} // verus!
