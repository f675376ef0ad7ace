//! The queue engine's state: registry, stores, configuration and limits.

use vstd::prelude::*;

use crate::channel::OutboundChannelDetails;
use crate::channel::OutboundState;
use crate::config::QueueConfigData;
use crate::config::QueueError;
use crate::fee;
use crate::store::page_key;
use crate::store::FeeStore;
use crate::store::PageStore;
use crate::store::SignalStore;

verus! {

/// The capacities the engine is instantiated with.
#[derive(Copy, Clone, Debug, PartialEq, Eq, Structural)]
pub struct QueueLimits {
    /// Hard upper bound on the size of one page, format header included.
    pub max_page_size: u32,
    /// How many outbound channels may hold queued state at the same time.
    pub max_active_outbound_channels: u32,
    /// How many inbound channels may be marked suspended at the same time.
    pub max_inbound_suspended: u32,
    /// The floor under every delivery fee factor.
    pub min_fee_factor: u128,
}

/// The whole state of the message queue engine.
///
/// All fields are mutated only through the engine's methods; every method
/// requires and preserves `wf`.
pub struct XcmpQueue {
    /// The backpressure thresholds.
    pub config: QueueConfigData,
    /// When set, inbound processing is gated off entirely.
    pub execution_suspended: bool,
    /// One record per outbound channel that holds any queued state.
    pub channels: Vec<OutboundChannelDetails>,
    /// Queued data pages, keyed by peer and page index.
    pub pages: PageStore,
    /// At most one pending control-frame page per peer.
    pub signals: SignalStore,
    /// Per-peer delivery fee factors.
    pub fees: FeeStore,
    /// Peers we have asked to stop sending to us.
    pub inbound_suspended: Vec<u32>,
    /// The engine's capacities.
    pub limits: QueueLimits,
}

/// Whether store key `k` falls into the page range of channel record `c`.
pub open spec fn covers(c: OutboundChannelDetails, k: u64) -> bool {
    k / 0x1_0000 == c.recipient && c.first_index <= k % 0x1_0000 < c.last_index
}

/// Splitting a page key recovers the peer and the index it was packed from.
pub proof fn lemma_page_key_parts(peer: u32, index: u16)
    ensures
        page_key(peer, index) / 0x1_0000 == peer,
        page_key(peer, index) % 0x1_0000 == index,
{
    assert(page_key(peer, index) / 0x1_0000 == peer && page_key(peer, index) % 0x1_0000 == index)
        by (nonlinear_arith)
        requires
            page_key(peer, index) == peer as u64 * 0x1_0000 + index as u64,
            index < 0x1_0000,
    ;
}

impl XcmpQueue {
    /// No two registry records concern the same peer.
    pub open spec fn channels_unique(self) -> bool {
        forall|i: int, j: int|
            0 <= i < j < self.channels@.len() ==> (#[trigger] self.channels@[i]).recipient != (
            #[trigger] self.channels@[j]).recipient
    }

    /// Every record's page range is well-formed, and every index in it is
    /// backed by a stored page.
    pub open spec fn ranges_backed(self) -> bool {
        &&& forall|i: int|
            0 <= i < self.channels@.len() ==> (#[trigger] self.channels@[i]).first_index
                <= self.channels@[i].last_index
        &&& forall|i: int, x: u16|
            0 <= i < self.channels@.len() && self.channels@[i].first_index <= x
                < self.channels@[i].last_index ==> self.pages@.contains_key(
                #[trigger] page_key(self.channels@[i].recipient, x),
            )
    }

    /// Every stored page belongs to the range of some registry record.
    pub open spec fn pages_tracked(self) -> bool {
        forall|k: u64|
            #[trigger] self.pages@.contains_key(k) ==> exists|i: int|
                0 <= i < self.channels@.len() && covers(self.channels@[i], k)
    }

    /// Every stored page is non-empty and within the page size limit.
    pub open spec fn pages_sized(self) -> bool {
        forall|k: u64|
            #[trigger] self.pages@.contains_key(k) ==> 1 <= self.pages@[k].len()
                <= self.limits.max_page_size
    }

    /// A record notes a pending signal exactly when the signal store holds a
    /// control-frame page for its peer.
    pub open spec fn signals_tracked(self) -> bool {
        &&& forall|i: int|
            0 <= i < self.channels@.len() && (#[trigger] self.channels@[i]).signals_exist
                ==> self.signals@.contains_key(self.channels@[i].recipient)
        &&& forall|p: u32|
            #[trigger] self.signals@.contains_key(p) ==> exists|i: int|
                0 <= i < self.channels@.len() && (#[trigger] self.channels@[i]).recipient == p
                    && self.channels@[i].signals_exist
    }

    /// Every pending signal page is non-empty and within the page size limit.
    pub open spec fn signals_sized(self) -> bool {
        forall|p: u32|
            #[trigger] self.signals@.contains_key(p) ==> 1 <= self.signals@[p].len()
                <= self.limits.max_page_size
    }

    /// The suspended-peer set is within capacity and free of duplicates.
    pub open spec fn inbound_set_wf(self) -> bool {
        &&& self.inbound_suspended@.len() <= self.limits.max_inbound_suspended
        &&& forall|i: int, j: int|
            0 <= i < j < self.inbound_suspended@.len() ==> self.inbound_suspended@[i]
                != self.inbound_suspended@[j]
    }

    /// Every stored fee factor sits at or above the configured floor.
    pub open spec fn fees_floored(self) -> bool {
        forall|p: u32|
            #[trigger] self.fees@.contains_key(p) ==> self.fees@[p] >= self.limits.min_fee_factor
    }

    /// The engine's well-formedness invariant.
    pub open spec fn wf(self) -> bool {
        &&& self.config.is_valid()
        &&& 2 <= self.limits.max_page_size <= 0x4000_0000
        &&& self.channels@.len() <= self.limits.max_active_outbound_channels
        &&& self.channels_unique()
        &&& self.ranges_backed()
        &&& self.pages_tracked()
        &&& self.pages_sized()
        &&& self.signals_tracked()
        &&& self.signals_sized()
        &&& self.inbound_set_wf()
        &&& self.fees_floored()
    }

    /// A fresh engine: valid configuration, nothing queued, nothing
    /// suspended, every fee factor at the floor.
    pub fn new(config: QueueConfigData, limits: QueueLimits) -> (q: XcmpQueue)
        requires
            config.is_valid(),
            2 <= limits.max_page_size <= 0x4000_0000,
        ensures
            q.wf(),
            q.config == config,
            q.limits == limits,
            !q.execution_suspended,
            q.channels@.len() == 0,
            q.pages@ == Map::<u64, Seq<u8>>::empty(),
            q.signals@ == Map::<u32, Seq<u8>>::empty(),
            q.fees@ == Map::<u32, u128>::empty(),
            q.inbound_suspended@.len() == 0,
    {
        XcmpQueue {
            config,
            execution_suspended: false,
            channels: Vec::new(),
            pages: PageStore::new(),
            signals: SignalStore::new(),
            fees: FeeStore::new(),
            inbound_suspended: Vec::new(),
            limits,
        }
    }

    /// Suspends all inbound processing; an error when already suspended.
    pub fn suspend_xcm_execution(&mut self) -> (r: Result<(), QueueError>)
        requires
            old(self).wf(),
        ensures
            final(self).wf(),
            old(self).execution_suspended ==> r == Result::<(), QueueError>::Err(
                QueueError::AlreadySuspended,
            ) && *final(self) == *old(self),
            !old(self).execution_suspended ==> r is Ok && *final(self) == (XcmpQueue {
                execution_suspended: true,
                ..*old(self)
            }),
    {
        if self.execution_suspended {
            Err(QueueError::AlreadySuspended)
        } else {
            self.execution_suspended = true;
            Ok(())
        }
    }

    /// Resumes inbound processing; an error when not suspended.
    pub fn resume_xcm_execution(&mut self) -> (r: Result<(), QueueError>)
        requires
            old(self).wf(),
        ensures
            final(self).wf(),
            !old(self).execution_suspended ==> r == Result::<(), QueueError>::Err(
                QueueError::AlreadyResumed,
            ) && *final(self) == *old(self),
            old(self).execution_suspended ==> r is Ok && *final(self) == (XcmpQueue {
                execution_suspended: false,
                ..*old(self)
            }),
    {
        if !self.execution_suspended {
            Err(QueueError::AlreadyResumed)
        } else {
            self.execution_suspended = false;
            Ok(())
        }
    }

    /// Whether inbound processing is switched off for a sender; the switch
    /// does not apply to a sender the host recognises as the controlling
    /// origin.
    pub fn is_paused(&self, sender_is_controller: bool) -> (r: bool)
        ensures
            r == (self.execution_suspended && !sender_is_controller),
    {
        self.execution_suspended && !sender_is_controller
    }

    /// Replaces the suspend threshold; rejected atomically when the new
    /// configuration would be invalid.
    pub fn update_suspend_threshold(&mut self, new: u32) -> (r: Result<(), QueueError>)
        requires
            old(self).wf(),
        ensures
            final(self).wf(),
            ({
                let cand = QueueConfigData { suspend_threshold: new, ..old(self).config };
                if cand.is_valid() {
                    r is Ok && *final(self) == (XcmpQueue { config: cand, ..*old(self) })
                } else {
                    r == Result::<(), QueueError>::Err(QueueError::BadQueueConfig) && *final(self)
                        == *old(self)
                }
            }),
    {
        let cand = QueueConfigData { suspend_threshold: new, ..self.config };
        match cand.validate() {
            Ok(()) => {
                self.config = cand;
                Ok(())
            },
            Err(e) => Err(e),
        }
    }

    /// Replaces the drop threshold; rejected atomically when the new
    /// configuration would be invalid.
    pub fn update_drop_threshold(&mut self, new: u32) -> (r: Result<(), QueueError>)
        requires
            old(self).wf(),
        ensures
            final(self).wf(),
            ({
                let cand = QueueConfigData { drop_threshold: new, ..old(self).config };
                if cand.is_valid() {
                    r is Ok && *final(self) == (XcmpQueue { config: cand, ..*old(self) })
                } else {
                    r == Result::<(), QueueError>::Err(QueueError::BadQueueConfig) && *final(self)
                        == *old(self)
                }
            }),
    {
        let cand = QueueConfigData { drop_threshold: new, ..self.config };
        match cand.validate() {
            Ok(()) => {
                self.config = cand;
                Ok(())
            },
            Err(e) => Err(e),
        }
    }

    /// Replaces the resume threshold; rejected atomically when the new
    /// configuration would be invalid.
    pub fn update_resume_threshold(&mut self, new: u32) -> (r: Result<(), QueueError>)
        requires
            old(self).wf(),
        ensures
            final(self).wf(),
            ({
                let cand = QueueConfigData { resume_threshold: new, ..old(self).config };
                if cand.is_valid() {
                    r is Ok && *final(self) == (XcmpQueue { config: cand, ..*old(self) })
                } else {
                    r == Result::<(), QueueError>::Err(QueueError::BadQueueConfig) && *final(self)
                        == *old(self)
                }
            }),
    {
        let cand = QueueConfigData { resume_threshold: new, ..self.config };
        match cand.validate() {
            Ok(()) => {
                self.config = cand;
                Ok(())
            },
            Err(e) => Err(e),
        }
    }

    /// The delivery fee factor currently charged for sends towards `id`.
    pub fn get_fee_factor(&self, id: u32) -> (r: u128)
        requires
            self.wf(),
        ensures
            r == fee::factor_of(self.fees@, id, self.limits.min_fee_factor),
            r >= self.limits.min_fee_factor,
    {
        self.fees.get_or(id, self.limits.min_fee_factor)
    }

    /// Stores a fee factor for `id`, clamped up to the configured floor.
    pub fn set_fee_factor(&mut self, id: u32, val: u128)
        requires
            old(self).wf(),
        ensures
            final(self).wf(),
            final(self).fees@ == old(self).fees@.insert(
                id,
                fee::clamped(val, old(self).limits.min_fee_factor),
            ),
            *final(self) == (XcmpQueue { fees: final(self).fees, ..*old(self) }),
    {
        let floor = self.limits.min_fee_factor;
        let v = if val >= floor {
            val
        } else {
            floor
        };
        self.fees.set(id, v);
    }

    /// One multiplicative escalation step for `id`'s fee factor.
    pub fn increase_fee_factor(&mut self, id: u32)
        requires
            old(self).wf(),
        ensures
            final(self).wf(),
            final(self).fees@ == old(self).fees@.insert(
                id,
                fee::escalated(
                    fee::factor_of(old(self).fees@, id, old(self).limits.min_fee_factor),
                ),
            ),
            *final(self) == (XcmpQueue { fees: final(self).fees, ..*old(self) }),
            fee::factor_of(final(self).fees@, id, final(self).limits.min_fee_factor)
                >= fee::factor_of(old(self).fees@, id, old(self).limits.min_fee_factor),
    {
        let cur = self.fees.get_or(id, self.limits.min_fee_factor);
        let next = fee::escalate(cur);
        self.fees.set(id, next);
    }

    /// One multiplicative decay step for `id`'s fee factor, floored.
    pub fn decrease_fee_factor(&mut self, id: u32)
        requires
            old(self).wf(),
        ensures
            final(self).wf(),
            final(self).fees@ == old(self).fees@.insert(
                id,
                fee::clamped(
                    fee::decayed(
                        fee::factor_of(old(self).fees@, id, old(self).limits.min_fee_factor),
                    ),
                    old(self).limits.min_fee_factor,
                ),
            ),
            *final(self) == (XcmpQueue { fees: final(self).fees, ..*old(self) }),
            fee::factor_of(final(self).fees@, id, final(self).limits.min_fee_factor)
                <= fee::factor_of(old(self).fees@, id, old(self).limits.min_fee_factor),
            fee::factor_of(final(self).fees@, id, final(self).limits.min_fee_factor)
                >= final(self).limits.min_fee_factor,
    {
        let cur = self.fees.get_or(id, self.limits.min_fee_factor);
        let next = fee::decay(cur);
        let floor = self.limits.min_fee_factor;
        let v = if next >= floor {
            next
        } else {
            floor
        };
        self.fees.set(id, v);
    }

    /// Whether we have asked `sender` to stop sending to us.
    pub fn is_inbound_channel_suspended(&self, sender: u32) -> (r: bool)
        ensures
            r == self.inbound_suspended@.contains(sender),
    {
        let n = self.inbound_suspended.len();
        let mut i: usize = 0;
        while i < n
            invariant
                i <= n == self.inbound_suspended@.len(),
                forall|j: int| 0 <= j < i ==> self.inbound_suspended@[j] != sender,
            decreases n - i,
        {
            if self.inbound_suspended[i] == sender {
                return true;
            }
            i = i + 1;
        }
        false
    }

    /// The index of `target`'s registry record, if it has one.
    pub fn find_channel(&self, target: u32) -> (r: Option<usize>)
        ensures
            match r {
                Some(i) => i < self.channels@.len() && self.channels@[i as int].recipient
                    == target,
                None => forall|j: int|
                    0 <= j < self.channels@.len() ==> (#[trigger] self.channels@[j]).recipient
                        != target,
            },
    {
        let n = self.channels.len();
        let mut i: usize = 0;
        while i < n
            invariant
                i <= n == self.channels@.len(),
                forall|j: int| 0 <= j < i ==> (#[trigger] self.channels@[j]).recipient != target,
            decreases n - i,
        {
            if self.channels[i].recipient == target {
                return Some(i);
            }
            i = i + 1;
        }
        None
    }

    /// The backpressure state and queued page count of `target`'s outbound
    /// channel, if it has a registry record.
    pub fn outbound_channel_state(&self, target: u32) -> (r: Option<(OutboundState, u16)>)
        requires
            self.wf(),
        ensures
            match r {
                Some((st, pages)) => exists|i: int|
                    0 <= i < self.channels@.len() && (#[trigger] self.channels@[i]).recipient
                        == target && self.channels@[i].state == st && self.channels@[
                    i].queued_pages() == pages,
                None => forall|j: int|
                    0 <= j < self.channels@.len() ==> (#[trigger] self.channels@[j]).recipient
                        != target,
            },
    {
        match self.find_channel(target) {
            Some(i) => {
                let c = self.channels[i];
                Some((c.state, c.last_index - c.first_index))
            },
            None => None,
        }
    }
}

} // verus!
