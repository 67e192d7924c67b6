//! Epoch bookkeeping for garbage collection.
use vstd::prelude::*;
use crate::protocol::envelope::Hash32;

verus! {

/// The current epoch and the root finalized last.
pub struct EpochManager {
    pub current_epoch: u64,
    pub finalized_root: Option<Hash32>,
}

impl EpochManager {
    pub fn new() -> (r: Self)
        ensures
            r.current_epoch == 0,
            r.finalized_root is None,
    {
        EpochManager { current_epoch: 0, finalized_root: None }
    }

    /// Record `root` as finalized and move to the next epoch.
    pub fn finalize_epoch(&mut self, root: Hash32)
        requires
            old(self).current_epoch < u64::MAX,
        ensures
            final(self).finalized_root == Some(root),
            final(self).current_epoch == old(self).current_epoch + 1,
    {
        self.finalized_root = Some(root);
        self.current_epoch = self.current_epoch + 1;
    }
}

impl Default for EpochManager {
    fn default() -> (r: Self)
        ensures
            r.current_epoch == 0,
            r.finalized_root is None,
    {
        Self::new()
    }
}

} // verus!
