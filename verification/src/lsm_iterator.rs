//! A fuse around the merge cursor: once the cursor is exhausted or has
//! errored, stepping it further does nothing and never yields a record.

use vstd::prelude::*;
use crate::iterators::MergeIter;
use crate::key::{KeyVec, entry_key};

verus! {

/// Wraps a cursor so that `next` on an invalid cursor is a no-op and an
/// error, once seen, pins the cursor invalid.
pub struct FusedIterator {
    pub iter: MergeIter,
    pub has_errored: bool,
}

impl FusedIterator {
    pub open spec fn wf(&self) -> bool {
        self.iter.wf()
    }

    /// The records still to be yielded; none once an error was seen.
    pub open spec fn remaining(&self) -> Seq<(Seq<u8>, u64, Seq<u8>)> {
        if self.has_errored {
            Seq::empty()
        } else {
            self.iter.remaining()
        }
    }

    pub fn create(iter: MergeIter) -> (r: FusedIterator)
        requires
            iter.wf(),
        ensures
            r.wf(),
            r.remaining() == iter.remaining(),
    {
        FusedIterator { iter, has_errored: false }
    }

    pub fn is_valid(&self) -> (r: bool)
        requires
            self.wf(),
        ensures
            r == (self.remaining().len() > 0),
    {
        !self.has_errored && self.iter.is_valid()
    }

    pub fn key(&self) -> (r: &KeyVec)
        requires
            self.wf(),
            self.remaining().len() > 0,
        ensures
            r@ == entry_key(self.remaining()[0]),
    {
        self.iter.key()
    }

    pub fn value(&self) -> (r: &Vec<u8>)
        requires
            self.wf(),
            self.remaining().len() > 0,
        ensures
            r@ == self.remaining()[0].2,
    {
        self.iter.value()
    }

    /// Step the cursor; on an invalid cursor this does nothing.
    pub fn next(&mut self) -> (r: Result<(), &'static str>)
        requires
            old(self).wf(),
        ensures
            r is Ok,
            final(self).wf(),
            old(self).remaining().len() > 0 ==> final(self).remaining() == old(
                self,
            ).remaining().skip(1),
            old(self).remaining().len() == 0 ==> final(self).remaining() == old(self).remaining(),
    {
        if self.has_errored {
            return Ok(());
        }
        if self.iter.is_valid() {
            self.iter.next()
        } else {
            proof {
                assert(self.remaining() =~= old(self).remaining());
            }
            Ok(())
        }
    }
}

} // verus!
