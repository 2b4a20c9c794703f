//! The decisions that keep the log file on disk in step with a store.
use vstd::prelude::*;

use crate::engines::KvStore;

verus! {

/// What to do at open about a rebuild file left next to the log.
#[derive(Clone, Copy, Debug, PartialEq, Eq, Structural)]
pub enum Recovery {
    /// No rebuild file: nothing to do.
    Nothing,
    /// The rebuild stopped before the old log was removed: the old log is
    /// whole, so the rebuild file is deleted.
    DiscardRebuild,
    /// The old log was removed but the rebuild file not yet renamed: it holds
    /// the live records, so the rename is finished.
    FinishRename,
}

/// The recovery step for a directory where the log file and the rebuild
/// file do or do not exist.
pub fn recovery(log_exists: bool, tmp_exists: bool) -> (r: Recovery)
    ensures
        !tmp_exists ==> r == Recovery::Nothing,
        tmp_exists && log_exists ==> r == Recovery::DiscardRebuild,
        tmp_exists && !log_exists ==> r == Recovery::FinishRename,
{
    if !tmp_exists {
        Recovery::Nothing
    } else if log_exists {
        Recovery::DiscardRebuild
    } else {
        Recovery::FinishRename
    }
}

/// How to bring the log file up to date with a store.
#[derive(Clone, Copy, Debug, PartialEq, Eq, Structural)]
pub enum SyncAction {
    /// The file already holds the log.
    UpToDate,
    /// The file holds the log up to `from`: append the rest.
    Append { from: usize },
    /// The log was rewritten: replace the file.
    Rewrite,
}

impl KvStore {
    /// How to bring a log file up to date that holds the first
    /// `synced_len` bytes of the log as it stood after `synced_compactions`
    /// compactions.
    pub fn sync_action(&self, synced_len: usize, synced_compactions: u64) -> (r: SyncAction)
        ensures
            synced_compactions != self.compaction_count() ==> r == SyncAction::Rewrite,
            synced_compactions == self.compaction_count() && synced_len < self.log_view().len()
                ==> r == (SyncAction::Append { from: synced_len }),
            synced_compactions == self.compaction_count() && synced_len == self.log_view().len()
                ==> r == SyncAction::UpToDate,
            synced_compactions == self.compaction_count() && synced_len > self.log_view().len()
                ==> r == SyncAction::Rewrite,
    {
        let len = self.log_bytes().len();
        if self.compactions() != synced_compactions {
            SyncAction::Rewrite
        } else if synced_len < len {
            SyncAction::Append { from: synced_len }
        } else if synced_len == len {
            SyncAction::UpToDate
        } else {
            SyncAction::Rewrite
        }
    }
}

} // verus!
