use vstd::prelude::*;

verus! {

/// How many entries go into one block before it is committed.
pub const BLOCK_ENTRIES: usize = 10000;

/// The ingestion driver's bookkeeping: entries added so far and blocks
/// committed so far. Blocks are tagged `0, 1, 2, …` in commit order.
#[derive(Debug, Clone, Copy, PartialEq, Eq, Structural)]
pub struct Ingest {
    pub count: usize,
    pub committed: usize,
}

impl Ingest {
    pub fn new() -> (r: Ingest)
        ensures
            r.count == 0,
            r.committed == 0,
    {
        Ingest { count: 0, committed: 0 }
    }

    /// Records one more added entry; returns the tag to commit the current
    /// block under when it has become full.
    pub fn entry_added(&mut self) -> (r: Option<usize>)
        requires
            old(self).count < usize::MAX,
            old(self).committed < usize::MAX,
        ensures
            final(self).count == old(self).count + 1,
            if final(self).count % BLOCK_ENTRIES == 0 {
                r == Some(old(self).committed) && final(self).committed == old(self).committed + 1
            } else {
                r is None && final(self).committed == old(self).committed
            },
    {
        self.count = self.count + 1;
        if self.count % BLOCK_ENTRIES == 0 {
            let tag = self.committed;
            self.committed = self.committed + 1;
            Some(tag)
        } else {
            None
        }
    }

    /// The tag of the final commit, at the end of the input.
    pub fn finish(&mut self) -> (r: usize)
        requires
            old(self).committed < usize::MAX,
        ensures
            r == old(self).committed,
            final(self).committed == old(self).committed + 1,
            final(self).count == old(self).count,
    {
        let tag = self.committed;
        self.committed = self.committed + 1;
        tag
    }
}

} // verus!
