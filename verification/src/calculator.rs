//! Accumulates one-way message lags, in milliseconds.

use vstd::prelude::*;

verus! {

/// A message carrying its send time in milliseconds, or the end marker.
pub enum Message {
    Micro(u64),
    Finish,
}

/// Collects the lag of each received message.
pub struct Calculator {
    pub inner: Vec<u64>,
}

/// Milliseconds since the Unix epoch, or an error when the clock reads
/// before the epoch.
///
/// Relies on `std::time::SystemTime::now` and `duration_since`; nothing is
/// promised of the clock's value.
#[verifier::external_body]
fn now_millis() -> Result<u64, &'static str> {
    match std::time::SystemTime::now().duration_since(std::time::UNIX_EPOCH) {
        Ok(d) => Ok(d.as_millis() as u64),
        Err(_) => Err("system clock is before the epoch"),
    }
}

impl Calculator {
    pub fn new() -> (r: Self)
        ensures
            r.inner@ == Seq::<u64>::empty(),
    {
        Calculator { inner: Vec::new() }
    }

    /// Record the lag of a message sent at `first` milliseconds: the
    /// difference between the clock now and `first`. Errs, recording
    /// nothing, when the clock cannot be read or reads before `first`.
    pub fn add_msg(&mut self, first: u64) -> (r: Result<(), &'static str>)
        ensures
            r is Ok ==> final(self).inner@.len() == old(self).inner@.len() + 1
                && final(self).inner@.take(old(self).inner@.len() as int) == old(self).inner@
                && first + final(self).inner@.last() <= u64::MAX,
            r is Err ==> final(self).inner@ == old(self).inner@,
    {
        let now = match now_millis() {
            Ok(v) => v,
            Err(e) => {
                return Err(e);
            },
        };
        self.record_lag(now, first)
    }

    /// Record the lag given the clock reading `now`: append exactly
    /// `now - first`. Errs, recording nothing, when the clock reads
    /// before `first`.
    pub fn record_lag(&mut self, now: u64, first: u64) -> (r: Result<(), &'static str>)
        ensures
            now >= first ==> (r is Ok && final(self).inner@ == old(self).inner@.push(
                (now - first) as u64,
            )),
            now < first ==> (r is Err && final(self).inner@ == old(self).inner@),
    {
        if now < first {
            return Err("system clock went backwards");
        }
        self.inner.push(now - first);
        Ok(())
    }

    /// How many lags have been recorded.
    pub fn len(&self) -> (r: usize)
        ensures
            r == self.inner@.len(),
    {
        self.inner.len()
    }
}

} // verus!
