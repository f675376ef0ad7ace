//! The processing budget and the downstream consumer boundary.

use vstd::prelude::*;

verus! {

/// The finite resource counter that bounds one block's inbound processing.
///
/// Every decode and every enqueue consumes a fixed amount; processing stops
/// the instant a needed amount is no longer there.
pub struct Budget {
    /// What is left of this block's budget.
    pub remaining: u64,
}

impl Budget {
    /// A budget of `amount` units.
    pub fn new(amount: u64) -> (b: Budget)
        ensures
            b.remaining == amount,
    {
        Budget { remaining: amount }
    }

    /// Takes `cost` units out of the budget; refuses, changing nothing,
    /// when fewer are left.
    pub fn try_consume(&mut self, cost: u64) -> (ok: bool)
        ensures
            ok == (old(self).remaining >= cost),
            ok ==> final(self).remaining == old(self).remaining - cost,
            !ok ==> final(self).remaining == old(self).remaining,
    {
        if self.remaining >= cost {
            self.remaining = self.remaining - cost;
            true
        } else {
            false
        }
    }
}

/// What each inbound processing step costs, in budget units.
#[derive(Copy, Clone, Debug, PartialEq, Eq, Structural)]
pub struct ProcessCosts {
    /// Processing one control frame of a `Signals` page.
    pub signal_process: u64,
    /// Decoding one payload fragment.
    pub message_decode: u64,
    /// Handing one completed batch to the downstream consumer.
    pub batch_enqueue: u64,
    /// The surcharge for the first page of a peer in a block.
    pub first_touch: u64,
}

/// The fragments of a batch as mathematical byte strings.
pub open spec fn batch_view(batch: Seq<Vec<u8>>) -> Seq<Seq<u8>> {
    Seq::new(batch.len(), |i: int| batch[i]@)
}

/// The downstream consumer that inbound payload batches are handed to.
///
/// The engine promises nothing about which batches the consumer accepts:
/// every guarantee it proves holds for any answer. The consumer reports how
/// many leading items of the batch it took; the rest is dropped and the
/// sending peer is not served again this block.
pub trait DownstreamSink {
    /// Everything the consumer has accepted, in arrival order: one entry
    /// per handed batch, holding the accepted leading items.
    spec fn received(&self) -> Seq<(u32, Seq<Seq<u8>>)>;

    /// Offers a batch of fragments from `peer`; yields how many of its
    /// leading items the consumer accepted. `drop_threshold` is the page
    /// depth past which the consumer is meant to drop the channel's
    /// messages rather than queue more.
    fn enqueue(&mut self, peer: u32, batch: &Vec<Vec<u8>>, drop_threshold: u32) -> (accepted:
        usize)
        ensures
            accepted <= batch.len(),
            final(self).received() == old(self).received().push(
                (peer, batch_view(batch@).take(accepted as int)),
            ),
    ;
}

/// An in-memory downstream consumer that accepts items up to a fixed
/// remaining capacity.
pub struct CollectingSink {
    /// The batches taken so far.
    pub batches: Vec<(u32, Vec<Vec<u8>>)>,
    /// How many more items the consumer will accept.
    pub capacity: usize,
}

/// What a list of stored batches says at the spec level.
pub open spec fn stored_batches_view(bs: Seq<(u32, Vec<Vec<u8>>)>) -> Seq<(u32, Seq<Seq<u8>>)> {
    Seq::new(bs.len(), |i: int| (bs[i].0, batch_view(bs[i].1@)))
}

impl CollectingSink {
    /// A consumer that will accept `capacity` items in all.
    pub fn new(capacity: usize) -> (s: CollectingSink)
        ensures
            s.received() == Seq::<(u32, Seq<Seq<u8>>)>::empty(),
            s.capacity == capacity,
    {
        let s = CollectingSink { batches: Vec::new(), capacity };
        proof {
            assert(stored_batches_view(s.batches@) =~= Seq::<(u32, Seq<Seq<u8>>)>::empty());
        }
        s
    }
}

impl DownstreamSink for CollectingSink {
    open spec fn received(&self) -> Seq<(u32, Seq<Seq<u8>>)> {
        stored_batches_view(self.batches@)
    }

    fn enqueue(&mut self, peer: u32, batch: &Vec<Vec<u8>>, _drop_threshold: u32) -> (accepted:
        usize)
        ensures
            accepted <= batch.len(),
            final(self).received() == old(self).received().push(
                (peer, batch_view(batch@).take(accepted as int)),
            ),
            accepted == if batch.len() <= old(self).capacity {
                batch.len()
            } else {
                old(self).capacity
            },
            final(self).capacity == old(self).capacity - accepted,
            final(self).batches@.len() == old(self).batches@.len() + 1,
    {
        let accepted = if batch.len() <= self.capacity {
            batch.len()
        } else {
            self.capacity
        };
        let mut taken: Vec<Vec<u8>> = Vec::new();
        let mut i: usize = 0;
        while i < accepted
            invariant
                i <= accepted <= batch.len(),
                taken@.len() == i,
                forall|j: int| 0 <= j < i ==> (#[trigger] taken@[j])@ == batch@[j]@,
            decreases accepted - i,
        {
            let src = &batch[i];
            let mut item: Vec<u8> = Vec::new();
            let mut j: usize = 0;
            while j < src.len()
                invariant
                    j <= src.len(),
                    item@ == src@.subrange(0, j as int),
                decreases src.len() - j,
            {
                item.push(src[j]);
                j = j + 1;
                assert(item@ =~= src@.subrange(0, j as int));
            }
            assert(item@ =~= src@);
            taken.push(item);
            i = i + 1;
        }
        self.capacity = self.capacity - accepted;
        self.batches.push((peer, taken));
        proof {
            assert(batch_view(taken@) =~= batch_view(batch@).take(accepted as int));
            assert(stored_batches_view(self.batches@) =~= stored_batches_view(
                old(self).batches@,
            ).push((peer, batch_view(batch@).take(accepted as int))));
        }
        accepted
    }
}

} // verus!
