use vstd::prelude::*;
use crate::epoch::{Epoch, epoch_preimage, sha256};
use crate::range_key::UniqueU64BlobId;

verus! {

/// Turns committed epochs into a sequence of transaction ids.
pub trait Linearizer: Sized {
    /// What taking `epoch` in does to a linearizer: `self` before, `after` once it is in.
    spec fn takes_epoch(self, after: Self, epoch: Epoch) -> bool;

    fn new_epoch(&mut self, epoch: Epoch)
        ensures
            old(self).takes_epoch(*final(self), epoch),
    ;
}

/// A linearizer that keeps one slot per increment of the last epoch.
pub struct LogLineriazer {
    pub sequence: Vec<UniqueU64BlobId>,
}

impl Linearizer for LogLineriazer {
    /// The sequence is resized to the number of increments of `epoch`: extra slots are dropped,
    /// new slots hold id 0.
    open spec fn takes_epoch(self, after: Self, epoch: Epoch) -> bool {
        &&& after.sequence@.len() == epoch.increments@.len()
        &&& forall|i: int|
            0 <= i < after.sequence@.len() ==> #[trigger] after.sequence@[i] == if i
                < self.sequence@.len() {
                self.sequence@[i]
            } else {
                UniqueU64BlobId(0)
            }
    }

    /// Resizes the sequence to the number of increments of `epoch`: extra slots are dropped,
    /// new slots hold id 0.
    fn new_epoch(&mut self, epoch: Epoch) {
        self.sequence.resize(epoch.increments.len(), UniqueU64BlobId(0));
    }
}

/// Something that hands epochs to a linearizer.
pub struct AppImitation<L: Linearizer> {
    pub linearizer: L,
}

impl<L: Linearizer> AppImitation<L> {
    /// Hands the linearizer a first epoch committing ids 0 to 15.
    pub fn some(&mut self)
        ensures
            exists|epoch: Epoch|
                {
                    &&& epoch.increments@ == seq![(UniqueU64BlobId(0), UniqueU64BlobId(15))]
                    &&& epoch.hash@ == sha256(epoch_preimage(None, epoch.increments@))
                    &&& old(self).linearizer.takes_epoch(final(self).linearizer, epoch)
                },
    {
        let mut increments: Vec<(UniqueU64BlobId, UniqueU64BlobId)> = Vec::new();
        increments.push((UniqueU64BlobId(0), UniqueU64BlobId(15)));
        assert(increments@ =~= seq![(UniqueU64BlobId(0), UniqueU64BlobId(15))]);
        let epoch = Epoch::new(increments, None);
        let ghost given = epoch;
        self.linearizer.new_epoch(epoch);
        assert(old(self).linearizer.takes_epoch(self.linearizer, given));
    }
}

} // verus!
