//! The inbound decoder/dispatcher and the outbound suspension state machine.
//!
//! Inbound pages arrive from the transport as `(sender, bytes)` pairs and
//! are processed under an explicit budget. `Signals` pages drive the
//! sender's outbound record through `suspend_channel` / `resume_channel`;
//! `ConcatenatedPayload` pages are split into length-prefixed fragments and
//! handed to the downstream consumer in batches.

use vstd::prelude::*;

use crate::budget::batch_view;
use crate::budget::Budget;
use crate::budget::DownstreamSink;
use crate::budget::ProcessCosts;
use crate::channel::OutboundChannelDetails;
use crate::channel::OutboundState;
use crate::outbound::has_record;
use crate::outbound::record_index;
use crate::outbound::signal_page;
use crate::state::XcmpQueue;
use crate::wire;
use crate::wire::decoded_items;
use crate::wire::format_byte;
use crate::wire::ChannelSignal;
use crate::wire::PageFormat;

verus! {

/// Whether `cs` holds a record for `peer`.
pub open spec fn seq_has_record(cs: Seq<OutboundChannelDetails>, peer: u32) -> bool {
    exists|i: int| 0 <= i < cs.len() && (#[trigger] cs[i]).recipient == peer
}

/// The index of `peer`'s record in `cs`.
pub open spec fn seq_record_index(cs: Seq<OutboundChannelDetails>, peer: u32) -> int {
    choose|i: int| 0 <= i < cs.len() && (#[trigger] cs[i]).recipient == peer
}

/// The registry after a `Suspend` control frame from `peer`: its record is
/// put into the `Suspended` state, created that way when absent and the
/// registry has room, and left alone when it is full.
pub open spec fn suspend_transition(
    cs: Seq<OutboundChannelDetails>,
    peer: u32,
    cap: int,
) -> Seq<OutboundChannelDetails> {
    if seq_has_record(cs, peer) {
        let i = seq_record_index(cs, peer);
        cs.update(i, OutboundChannelDetails { state: OutboundState::Suspended, ..cs[i] })
    } else if cs.len() < cap {
        cs.push(
            OutboundChannelDetails {
                recipient: peer,
                state: OutboundState::Suspended,
                signals_exist: false,
                first_index: 0u16,
                last_index: 0u16,
            },
        )
    } else {
        cs
    }
}

/// The registry after a `Resume` control frame from `peer`: an empty,
/// signal-free record is dropped entirely, any other record goes back to
/// `Open`, and an unknown peer changes nothing.
pub open spec fn resume_transition(
    cs: Seq<OutboundChannelDetails>,
    peer: u32,
) -> Seq<OutboundChannelDetails> {
    if seq_has_record(cs, peer) {
        let i = seq_record_index(cs, peer);
        let c = cs[i];
        if c.first_index == c.last_index && !c.signals_exist {
            cs.remove(i)
        } else {
            cs.update(i, OutboundChannelDetails { state: OutboundState::Open, ..c })
        }
    } else {
        cs
    }
}

impl XcmpQueue {
    /// Puts `target`'s outbound channel into the `Suspended` state, creating
    /// the record when absent. A full registry leaves the state unchanged
    /// (the host logs the loss); an already-suspended record is suspended
    /// again without complaint.
    pub fn suspend_channel(&mut self, target: u32)
        requires
            old(self).wf(),
        ensures
            final(self).wf(),
            final(self).channels@ == suspend_transition(
                old(self).channels@,
                target,
                old(self).limits.max_active_outbound_channels as int,
            ),
            *final(self) == (XcmpQueue { channels: final(self).channels, ..*old(self) }),
    {
        match self.find_channel(target) {
            Some(i) => {
                proof {
                    assert(seq_has_record(self.channels@, target));
                    let j = seq_record_index(self.channels@, target);
                    if i as int != j {
                        assert(self.channels@[i as int].recipient == self.channels@[j].recipient);
                        assert(false);
                    }
                }
                let c = self.channels[i];
                self.channels[i] = OutboundChannelDetails { state: OutboundState::Suspended, ..c };
                proof {
                    self.lemma_wf_after_touch(*old(self), i as int);
                }
            },
            None => {
                if self.channels.len() < self.limits.max_active_outbound_channels as usize {
                    self.channels.push(
                        OutboundChannelDetails {
                            recipient: target,
                            state: OutboundState::Suspended,
                            signals_exist: false,
                            first_index: 0,
                            last_index: 0,
                        },
                    );
                    proof {
                        self.lemma_wf_after_push_empty(*old(self), target);
                    }
                }
            },
        }
    }

    /// Takes `target`'s outbound channel out of the `Suspended` state. A
    /// drained record without a pending signal is removed entirely; an
    /// unknown peer changes nothing (the host logs the inconsistency).
    pub fn resume_channel(&mut self, target: u32)
        requires
            old(self).wf(),
        ensures
            final(self).wf(),
            final(self).channels@ == resume_transition(old(self).channels@, target),
            *final(self) == (XcmpQueue { channels: final(self).channels, ..*old(self) }),
    {
        match self.find_channel(target) {
            Some(i) => {
                proof {
                    assert(seq_has_record(self.channels@, target));
                    let j = seq_record_index(self.channels@, target);
                    if i as int != j {
                        assert(self.channels@[i as int].recipient == self.channels@[j].recipient);
                        assert(false);
                    }
                }
                let c = self.channels[i];
                if c.first_index == c.last_index && !c.signals_exist {
                    self.channels.remove(i);
                    proof {
                        self.lemma_wf_after_remove_empty(*old(self), i as int);
                    }
                } else {
                    self.channels[i] = OutboundChannelDetails { state: OutboundState::Open, ..c };
                    proof {
                        self.lemma_wf_after_touch(*old(self), i as int);
                    }
                }
            },
            None => {},
        }
    }

    /// Updating one record without changing its peer, range or signal flag
    /// preserves the structural invariants.
    proof fn lemma_wf_after_touch(self, oldq: XcmpQueue, i: int)
        requires
            oldq.wf(),
            0 <= i < oldq.channels@.len(),
            self.channels@.len() == oldq.channels@.len(),
            forall|j: int| 0 <= j < self.channels@.len() && j != i ==> self.channels@[j] == oldq.channels@[j],
            self.channels@[i].recipient == oldq.channels@[i].recipient,
            self.channels@[i].first_index == oldq.channels@[i].first_index,
            self.channels@[i].last_index == oldq.channels@[i].last_index,
            self.channels@[i].signals_exist == oldq.channels@[i].signals_exist,
            self == (XcmpQueue { channels: self.channels, ..oldq }),
        ensures
            self.wf(),
    {
        assert forall|j: int, x: u16|
            0 <= j < self.channels@.len() && self.channels@[j].first_index <= x
                < self.channels@[j].last_index implies self.pages@.contains_key(
            #[trigger] crate::store::page_key(self.channels@[j].recipient, x),
        ) by {
            assert(oldq.pages@.contains_key(
                crate::store::page_key(oldq.channels@[j].recipient, x),
            ));
        }
        assert forall|k: u64| #[trigger] self.pages@.contains_key(k) implies exists|j: int|
            0 <= j < self.channels@.len() && crate::state::covers(self.channels@[j], k) by {
            let j = choose|j: int|
                0 <= j < oldq.channels@.len() && crate::state::covers(oldq.channels@[j], k);
            assert(crate::state::covers(self.channels@[j], k));
        }
        assert forall|p: u32| #[trigger] self.signals@.contains_key(p) implies exists|j: int|
            0 <= j < self.channels@.len() && (#[trigger] self.channels@[j]).recipient == p
                && self.channels@[j].signals_exist by {
            let j = choose|j: int|
                0 <= j < oldq.channels@.len() && (#[trigger] oldq.channels@[j]).recipient == p
                    && oldq.channels@[j].signals_exist;
            assert(self.channels@[j].recipient == p && self.channels@[j].signals_exist);
        }
    }

    /// Pushing a fresh record with an empty range and no signal preserves
    /// the structural invariants.
    proof fn lemma_wf_after_push_empty(self, oldq: XcmpQueue, peer: u32)
        requires
            oldq.wf(),
            !seq_has_record(oldq.channels@, peer),
            oldq.channels@.len() < oldq.limits.max_active_outbound_channels,
            self.channels@.len() == oldq.channels@.len() + 1,
            forall|j: int| 0 <= j < oldq.channels@.len() ==> self.channels@[j] == oldq.channels@[j],
            self.channels@.last().recipient == peer,
            self.channels@.last().first_index == self.channels@.last().last_index,
            !self.channels@.last().signals_exist,
            self == (XcmpQueue { channels: self.channels, ..oldq }),
        ensures
            self.wf(),
    {
        let n = oldq.channels@.len() as int;
        assert forall|i: int, j: int|
            0 <= i < j < self.channels@.len() implies (#[trigger] self.channels@[i]).recipient
            != (#[trigger] self.channels@[j]).recipient by {
            if j == n {
                assert(self.channels@[i] == oldq.channels@[i]);
            }
        }
        assert forall|j: int, x: u16|
            0 <= j < self.channels@.len() && self.channels@[j].first_index <= x
                < self.channels@[j].last_index implies self.pages@.contains_key(
            #[trigger] crate::store::page_key(self.channels@[j].recipient, x),
        ) by {
            assert(j != n);
            assert(oldq.pages@.contains_key(
                crate::store::page_key(oldq.channels@[j].recipient, x),
            ));
        }
        assert forall|k: u64| #[trigger] self.pages@.contains_key(k) implies exists|j: int|
            0 <= j < self.channels@.len() && crate::state::covers(self.channels@[j], k) by {
            let j = choose|j: int|
                0 <= j < oldq.channels@.len() && crate::state::covers(oldq.channels@[j], k);
            assert(crate::state::covers(self.channels@[j], k));
        }
        assert forall|p: u32| #[trigger] self.signals@.contains_key(p) implies exists|j: int|
            0 <= j < self.channels@.len() && (#[trigger] self.channels@[j]).recipient == p
                && self.channels@[j].signals_exist by {
            let j = choose|j: int|
                0 <= j < oldq.channels@.len() && (#[trigger] oldq.channels@[j]).recipient == p
                    && oldq.channels@[j].signals_exist;
            assert(self.channels@[j].recipient == p && self.channels@[j].signals_exist);
        }
    }

    /// Removing a record whose range is empty and whose signal flag is clear
    /// preserves the structural invariants.
    proof fn lemma_wf_after_remove_empty(self, oldq: XcmpQueue, i: int)
        requires
            oldq.wf(),
            0 <= i < oldq.channels@.len(),
            oldq.channels@[i].first_index == oldq.channels@[i].last_index,
            !oldq.channels@[i].signals_exist,
            self.channels@ == oldq.channels@.remove(i),
            self == (XcmpQueue { channels: self.channels, ..oldq }),
        ensures
            self.wf(),
    {
        let n = oldq.channels@.len() as int;
        assert(self.channels@.len() == n - 1);
        assert forall|a: int, b: int|
            0 <= a < b < self.channels@.len() implies (#[trigger] self.channels@[a]).recipient
            != (#[trigger] self.channels@[b]).recipient by {
            let a0 = if a < i { a } else { a + 1 };
            let b0 = if b < i { b } else { b + 1 };
            assert(self.channels@[a] == oldq.channels@[a0]);
            assert(self.channels@[b] == oldq.channels@[b0]);
        }
        assert forall|j: int, x: u16|
            0 <= j < self.channels@.len() && self.channels@[j].first_index <= x
                < self.channels@[j].last_index implies self.pages@.contains_key(
            #[trigger] crate::store::page_key(self.channels@[j].recipient, x),
        ) by {
            let j0 = if j < i { j } else { j + 1 };
            assert(self.channels@[j] == oldq.channels@[j0]);
            assert(oldq.pages@.contains_key(
                crate::store::page_key(oldq.channels@[j0].recipient, x),
            ));
        }
        assert forall|k: u64| #[trigger] self.pages@.contains_key(k) implies exists|j: int|
            0 <= j < self.channels@.len() && crate::state::covers(self.channels@[j], k) by {
            let j0 = choose|j0: int|
                0 <= j0 < oldq.channels@.len() && crate::state::covers(oldq.channels@[j0], k);
            assert(j0 != i);
            let j = if j0 < i {
                j0
            } else {
                j0 - 1
            };
            assert(self.channels@[j] == oldq.channels@[j0]);
            assert(crate::state::covers(self.channels@[j], k));
        }
        assert forall|p: u32| #[trigger] self.signals@.contains_key(p) implies exists|j: int|
            0 <= j < self.channels@.len() && (#[trigger] self.channels@[j]).recipient == p
                && self.channels@[j].signals_exist by {
            let j0 = choose|j0: int|
                0 <= j0 < oldq.channels@.len() && (#[trigger] oldq.channels@[j0]).recipient == p
                    && oldq.channels@[j0].signals_exist;
            assert(j0 != i);
            let j = if j0 < i {
                j0
            } else {
                j0 - 1
            };
            assert(self.channels@[j] == oldq.channels@[j0]);
            assert(self.channels@[j].recipient == p && self.channels@[j].signals_exist);
        }
    }
}
/// Whether the signal path can succeed for `dest`: a record exists, or the
/// registry has room for one.
pub open spec fn signal_sendable(q: XcmpQueue, dest: u32) -> bool {
    has_record(q, dest) || q.channels@.len() < q.limits.max_active_outbound_channels
}

/// The registry after the signal path noted a pending signal for `dest`.
pub open spec fn channels_after_signal(q: XcmpQueue, dest: u32) -> Seq<OutboundChannelDetails> {
    if has_record(q, dest) {
        q.channels@.update(
            record_index(q, dest),
            OutboundChannelDetails { signals_exist: true, ..q.channels@[record_index(q, dest)] },
        )
    } else {
        q.channels@.push(
            OutboundChannelDetails {
                recipient: dest,
                state: OutboundState::Open,
                signals_exist: true,
                first_index: 0u16,
                last_index: 0u16,
            },
        )
    }
}

/// The outcome of working through the control frames of a `Signals` page
/// from `pos` on: the registry, the budget that is left, and whether the
/// budget ran out before the page did.
///
/// Each frame costs `cost` budget units, charged before it is read; an
/// unknown frame byte ends the page without halting the block.
pub open spec fn signals_step(
    cs: Seq<OutboundChannelDetails>,
    cap: int,
    sender: u32,
    s: Seq<u8>,
    pos: int,
    budget: u64,
    cost: u64,
) -> (Seq<OutboundChannelDetails>, u64, bool)
    decreases s.len() - pos,
{
    if pos < 0 || pos >= s.len() {
        (cs, budget, false)
    } else if budget < cost {
        (cs, budget, true)
    } else if s[pos] == 0 {
        signals_step(
            suspend_transition(cs, sender, cap),
            cap,
            sender,
            s,
            pos + 1,
            (budget - cost) as u64,
            cost,
        )
    } else if s[pos] == 1 {
        signals_step(
            resume_transition(cs, sender),
            cap,
            sender,
            s,
            pos + 1,
            (budget - cost) as u64,
            cost,
        )
    } else {
        (cs, (budget - cost) as u64, false)
    }
}

impl XcmpQueue {
    /// Works through the control frames of a `Signals` page, starting after
    /// the format header. Yields true when the budget ran out and the whole
    /// block's processing must stop.
    pub fn process_signals_page(
        &mut self,
        sender: u32,
        page: &Vec<u8>,
        budget: &mut Budget,
        cost: u64,
    ) -> (halted: bool)
        requires
            old(self).wf(),
            page.len() >= 1,
        ensures
            final(self).wf(),
            final(budget).remaining <= old(budget).remaining,
            (final(self).channels@, final(budget).remaining, halted) == signals_step(
                old(self).channels@,
                old(self).limits.max_active_outbound_channels as int,
                sender,
                page@,
                1,
                old(budget).remaining,
                cost,
            ),
            *final(self) == (XcmpQueue { channels: final(self).channels, ..*old(self) }),
    {
        let ghost cap = old(self).limits.max_active_outbound_channels as int;
        let ghost goal = signals_step(
            old(self).channels@,
            cap,
            sender,
            page@,
            1,
            old(budget).remaining,
            cost,
        );
        let mut pos: usize = 1;
        let mut halted = false;
        while pos < page.len()
            invariant_except_break
                self.wf(),
                cap == old(self).limits.max_active_outbound_channels as int,
                budget.remaining <= old(budget).remaining,
                1 <= pos <= page.len(),
                !halted,
                self.limits == old(self).limits,
                *self == (XcmpQueue { channels: self.channels, ..*old(self) }),
                goal == signals_step(
                    self.channels@,
                    cap,
                    sender,
                    page@,
                    pos as int,
                    budget.remaining,
                    cost,
                ),
            ensures
                self.wf(),
                budget.remaining <= old(budget).remaining,
                *self == (XcmpQueue { channels: self.channels, ..*old(self) }),
                goal == (self.channels@, budget.remaining, halted),
            decreases page.len() - pos,
        {
            let ghost pre_cs = self.channels@;
            let ghost pre_budget = budget.remaining;
            let ghost pre_pos = pos as int;
            if !budget.try_consume(cost) {
                halted = true;
                break;
            }
            let b = page[pos];
            if b == 0 {
                self.suspend_channel(sender);
                pos = pos + 1;
                proof {
                    assert(signals_step(pre_cs, cap, sender, page@, pre_pos, pre_budget, cost)
                        == signals_step(
                        self.channels@,
                        cap,
                        sender,
                        page@,
                        pos as int,
                        budget.remaining,
                        cost,
                    ));
                }
            } else if b == 1 {
                self.resume_channel(sender);
                pos = pos + 1;
                proof {
                    assert(signals_step(pre_cs, cap, sender, page@, pre_pos, pre_budget, cost)
                        == signals_step(
                        self.channels@,
                        cap,
                        sender,
                        page@,
                        pos as int,
                        budget.remaining,
                        cost,
                    ));
                }
            } else {
                proof {
                    assert(signals_step(pre_cs, cap, sender, page@, pre_pos, pre_budget, cost)
                        == (self.channels@, budget.remaining, false));
                }
                break;
            }
        }
        halted
    }

    /// Takes `para` out of the inbound suspended set.
    fn inbound_remove(&mut self, para: u32)
        requires
            old(self).wf(),
            old(self).inbound_suspended@.contains(para),
        ensures
            final(self).wf(),
            !final(self).inbound_suspended@.contains(para),
            forall|t: u32|
                t != para ==> final(self).inbound_suspended@.contains(t) == old(
                    self,
                ).inbound_suspended@.contains(t),
            final(self).inbound_suspended@.len() == old(self).inbound_suspended@.len() - 1,
            *final(self) == (XcmpQueue {
                inbound_suspended: final(self).inbound_suspended,
                ..*old(self)
            }),
    {
        let n = self.inbound_suspended.len();
        let mut i: usize = 0;
        while i < n
            invariant
                old(self).wf(),
                i <= n == self.inbound_suspended@.len(),
                old(self).inbound_suspended@.contains(para),
                *self == *old(self),
                forall|j: int| 0 <= j < i ==> self.inbound_suspended@[j] != para,
            decreases n - i,
        {
            if self.inbound_suspended[i] == para {
                self.inbound_suspended.remove(i);
                proof {
                    let s = old(self).inbound_suspended@;
                    let s2 = self.inbound_suspended@;
                    let iv = i as int;
                    s.remove_ensures(iv);
                    assert forall|a: int, b: int|
                        0 <= a < b < s2.len() implies s2[a] != s2[b] by {
                        let a0 = if a < iv { a } else { a + 1 };
                        let b0 = if b < iv { b } else { b + 1 };
                        assert(s2[a] == s[a0] && s2[b] == s[b0]);
                    }
                    assert(!s2.contains(para)) by {
                        if s2.contains(para) {
                            let j = choose|j: int| 0 <= j < s2.len() && s2[j] == para;
                            if j < iv {
                                assert(s[j] == para && s[iv] == para);
                            } else {
                                assert(s[j + 1] == para && s[iv] == para);
                            }
                            assert(false);
                        }
                    }
                    assert forall|t: u32|
                        t != para implies s2.contains(t) == s.contains(t) by {
                        if s.contains(t) {
                            let j = choose|j: int| 0 <= j < s.len() && s[j] == t;
                            if j < iv {
                                assert(s2[j] == t);
                            } else {
                                assert(s2[j - 1] == t);
                            }
                            assert(s2.contains(t));
                        }
                        if s2.contains(t) {
                            let j = choose|j: int| 0 <= j < s2.len() && s2[j] == t;
                            if j < iv {
                                assert(s[j] == t);
                            } else {
                                assert(s[j + 1] == t);
                            }
                            assert(s.contains(t));
                        }
                    }
                }
                return;
            }
            i = i + 1;
        }
        proof {
            let s = self.inbound_suspended@;
            let j = choose|j: int| 0 <= j < s.len() && s[j] == para;
            assert(false);
        }
    }

    /// The downstream consumer's queue-depth callback: at or under the
    /// resume threshold a suspended peer is asked to resume (and unmarked on
    /// success); at or over the suspend threshold an unmarked peer is asked
    /// to suspend and marked, capacity permitting. A failed signal send
    /// leaves everything as it was, to be retried on the next depth change.
    pub fn on_queue_changed(&mut self, para: u32, ready_pages: u32)
        requires
            old(self).wf(),
        ensures
            final(self).wf(),
            final(self).pages@ == old(self).pages@,
            final(self).fees@ == old(self).fees@,
            final(self).config == old(self).config,
            final(self).execution_suspended == old(self).execution_suspended,
            final(self).limits == old(self).limits,
            ({
                let q0 = *old(self);
                let was = q0.inbound_suspended@.contains(para);
                if was && ready_pages <= q0.config.resume_threshold {
                    if signal_sendable(q0, para) {
                        &&& final(self).signals@ == q0.signals@.insert(
                            para,
                            signal_page(ChannelSignal::Resume),
                        )
                        &&& final(self).channels@ == channels_after_signal(q0, para)
                        &&& !final(self).inbound_suspended@.contains(para)
                        &&& forall|t: u32|
                            t != para ==> final(self).inbound_suspended@.contains(t)
                                == q0.inbound_suspended@.contains(t)
                    } else {
                        *final(self) == q0
                    }
                } else if !was && ready_pages >= q0.config.suspend_threshold {
                    if signal_sendable(q0, para) {
                        &&& final(self).signals@ == q0.signals@.insert(
                            para,
                            signal_page(ChannelSignal::Suspend),
                        )
                        &&& final(self).channels@ == channels_after_signal(q0, para)
                        &&& (if q0.inbound_suspended@.len() < q0.limits.max_inbound_suspended {
                            final(self).inbound_suspended@ == q0.inbound_suspended@.push(para)
                        } else {
                            final(self).inbound_suspended@ == q0.inbound_suspended@
                        })
                    } else {
                        *final(self) == q0
                    }
                } else {
                    *final(self) == q0
                }
            }),
    {
        let was = self.is_inbound_channel_suspended(para);
        if was && ready_pages <= self.config.resume_threshold {
            match self.send_signal(para, ChannelSignal::Resume) {
                Ok(()) => {
                    self.inbound_remove(para);
                },
                Err(_) => {},
            }
        } else if !was && ready_pages >= self.config.suspend_threshold {
            match self.send_signal(para, ChannelSignal::Suspend) {
                Ok(()) => {
                    if self.inbound_suspended.len() < self.limits.max_inbound_suspended as usize {
                        self.inbound_suspended.push(para);
                        proof {
                            let s2 = self.inbound_suspended@;
                            let n = s2.len() - 1;
                            assert forall|a: int, b: int|
                                0 <= a < b < s2.len() implies s2[a] != s2[b] by {
                                if b == n {
                                    assert(s2[a] == old(self).inbound_suspended@[a]);
                                    assert(!old(self).inbound_suspended@.contains(para));
                                }
                            }
                        }
                    }
                },
                Err(_) => {},
            }
        }
    }
}


/// How many fragments at most go downstream in one batch.
pub const XCM_BATCH_SIZE: usize = 250;

/// How one inbound page's processing ended.
#[derive(Copy, Clone, Debug, PartialEq, Eq, Structural)]
pub enum PageOutcome {
    /// The page was worked through (possibly truncated at a decode error).
    Completed,
    /// The downstream consumer rejected part of a batch: this peer is not
    /// served again this block and the remainder of the page is dropped.
    PeerStopped,
    /// The budget ran out: all processing for the block stops.
    Halted,
}

/// Whether batch entry `e` could have come from `page` sent by `sender`: a
/// run of consecutive decoded fragments, in page order.
pub open spec fn entry_from_page(e: (u32, Seq<Seq<u8>>), sender: u32, page: Seq<u8>) -> bool {
    &&& e.0 == sender
    &&& exists|a: int, b: int|
        0 <= a <= b <= decoded_items(page, 1).len() && e.1 == decoded_items(page, 1).subrange(
            a,
            b,
        )
}

/// Whether `p` is a payload page whose decoded fragments could have yielded
/// batch entry `e`.
pub open spec fn entry_matches(e: (u32, Seq<Seq<u8>>), p: (u32, Vec<u8>)) -> bool {
    &&& p.1@.len() >= 1
    &&& p.1@[0] == format_byte(PageFormat::ConcatenatedPayload)
    &&& entry_from_page(e, p.0, p.1@)
}

/// Whether some payload page of the block could have yielded entry `e`.
pub open spec fn entry_from_pages(e: (u32, Seq<Seq<u8>>), pages: Seq<(u32, Vec<u8>)>) -> bool {
    exists|j: int| 0 <= j < pages.len() && entry_matches(e, #[trigger] pages[j])
}

/// How many fragments the consumer accepted across the entries past
/// `base`: every entry but the last is a full chunk of [`XCM_BATCH_SIZE`].
pub open spec fn accepted_total(received: Seq<(u32, Seq<Seq<u8>>)>, base: int) -> int {
    if received.len() <= base {
        0
    } else {
        XCM_BATCH_SIZE * (received.len() - base - 1) + received.last().1.len()
    }
}

/// Whether `p` is a page of payload fragments.
pub open spec fn is_payload_page(p: (u32, Vec<u8>)) -> bool {
    p.1@.len() >= 1 && p.1@[0] == format_byte(PageFormat::ConcatenatedPayload)
}

/// The registry and budget after the block's first `i` pages, for a block
/// without payload pages: empty, unknown-format and blob pages change
/// nothing; a `Signals` page runs its control frames under the budget; once
/// the budget halts, the remaining pages go unprocessed.
pub open spec fn signals_block_step(
    cs: Seq<OutboundChannelDetails>,
    cap: int,
    pages: Seq<(u32, Vec<u8>)>,
    i: int,
    budget: u64,
    cost: u64,
) -> (Seq<OutboundChannelDetails>, u64, bool)
    decreases i,
{
    if i <= 0 {
        (cs, budget, false)
    } else {
        let (cs1, b1, halted) = signals_block_step(cs, cap, pages, i - 1, budget, cost);
        if halted {
            (cs1, b1, true)
        } else {
            let page = pages[i - 1].1@;
            if page.len() >= 1 && page[0] == format_byte(PageFormat::Signals) {
                signals_step(cs1, cap, pages[i - 1].0, page, 1, b1, cost)
            } else {
                (cs1, b1, false)
            }
        }
    }
}

/// Once the block fold halts, later pages leave it where it stopped.
proof fn lemma_block_step_halted(
    cs: Seq<OutboundChannelDetails>,
    cap: int,
    pages: Seq<(u32, Vec<u8>)>,
    i: int,
    j: int,
    budget: u64,
    cost: u64,
)
    requires
        0 <= i <= j,
        signals_block_step(cs, cap, pages, i, budget, cost).2,
    ensures
        signals_block_step(cs, cap, pages, j, budget, cost) == signals_block_step(
            cs,
            cap,
            pages,
            i,
            budget,
            cost,
        ),
    decreases j - i,
{
    if j > i {
        lemma_block_step_halted(cs, cap, pages, i, j - 1, budget, cost);
    }
}

/// Linear membership scan.
fn vec_contains(v: &Vec<u32>, x: u32) -> (r: bool)
    ensures
        r == v@.contains(x),
{
    let n = v.len();
    let mut i: usize = 0;
    while i < n
        invariant
            i <= n == v@.len(),
            forall|j: int| 0 <= j < i ==> v@[j] != x,
        decreases n - i,
    {
        if v[i] == x {
            return true;
        }
        i = i + 1;
    }
    false
}

impl XcmpQueue {
    /// Splits a `ConcatenatedPayload` page into length-prefixed fragments
    /// and hands them downstream in batches of at most [`XCM_BATCH_SIZE`].
    ///
    /// Each fragment decode and each handed batch costs budget; a decode
    /// error truncates the page there, with the partial batch still
    /// forwarded. The engine's own state is untouched. The batches handed
    /// down are the successive front-aligned chunks of the page's decodable
    /// fragments: every entry but the last is a fully accepted chunk of
    /// exactly [`XCM_BATCH_SIZE`] items, and on a clean finish the
    /// consumer accepted every decodable item of the page.
    pub fn process_payload_page<D: DownstreamSink>(
        sender: u32,
        page: &Vec<u8>,
        drop_threshold: u32,
        budget: &mut Budget,
        costs: &ProcessCosts,
        sink: &mut D,
    ) -> (r: PageOutcome)
        requires
            page.len() >= 1,
        ensures
            final(budget).remaining <= old(budget).remaining,
            final(sink).received().len() >= old(sink).received().len(),
            final(sink).received().subrange(0, old(sink).received().len() as int) == old(
                sink,
            ).received(),
            forall|k: int|
                old(sink).received().len() <= k < final(sink).received().len()
                    ==> entry_from_page(#[trigger] final(sink).received()[k], sender, page@),
            ({
                let base = old(sink).received().len() as int;
                let fin = final(sink).received();
                let items = decoded_items(page@, 1);
                &&& forall|k: int|
                    base <= k < fin.len() - 1 ==> #[trigger] fin[k] == (
                        sender,
                        items.subrange(
                            XCM_BATCH_SIZE * (k - base),
                            XCM_BATCH_SIZE * (k - base) + XCM_BATCH_SIZE,
                        ),
                    )
                &&& fin.len() > base ==> {
                    let e = fin.last();
                    let a = XCM_BATCH_SIZE * (fin.len() - base - 1);
                    &&& e.0 == sender
                    &&& e.1.len() <= XCM_BATCH_SIZE
                    &&& a + e.1.len() <= items.len()
                    &&& e.1 == items.subrange(a, a + e.1.len())
                }
                &&& r == PageOutcome::Completed ==> accepted_total(fin, base) == items.len()
                &&& r == PageOutcome::PeerStopped ==> fin.len() > base && accepted_total(fin, base)
                    < items.len()
                &&& (r == PageOutcome::PeerStopped <==> (fin.len() > base && ({
                    let room = items.len() - XCM_BATCH_SIZE * (fin.len() - base - 1);
                    &&& (room <= XCM_BATCH_SIZE ==> fin.last().1.len() < room)
                    &&& (room > XCM_BATCH_SIZE ==> fin.last().1.len() < XCM_BATCH_SIZE)
                })))
                &&& r == PageOutcome::Halted ==> final(budget).remaining < costs.message_decode
                    || final(budget).remaining < costs.batch_enqueue
            }),
    {
        let ghost items = decoded_items(page@, 1);
        let ghost base = old(sink).received().len() as int;
        let mut pos: usize = 1;
        let mut batch: Vec<Vec<u8>> = Vec::new();
        let ghost mut done: int = 0;
        proof {
            assert(items =~= items.take(0) + decoded_items(page@, 1));
            assert(batch_view(batch@) =~= items.subrange(0, 0));
        }
        loop
            invariant
                1 <= pos <= page.len(),
                budget.remaining <= old(budget).remaining,
                0 <= batch@.len() <= done <= items.len(),
                batch@.len() < XCM_BATCH_SIZE,
                batch_view(batch@) == items.subrange(done - batch@.len(), done),
                items == items.take(done) + decoded_items(page@, pos as int),
                items == decoded_items(page@, 1),
                base == old(sink).received().len(),
                sink.received().len() >= base,
                done == XCM_BATCH_SIZE * (sink.received().len() - base) + batch@.len(),
                sink.received().subrange(0, base) == old(sink).received(),
                forall|k: int|
                    base <= k < sink.received().len() ==> entry_from_page(
                        #[trigger] sink.received()[k],
                        sender,
                        page@,
                    ),
                forall|k: int|
                    base <= k < sink.received().len() ==> #[trigger] sink.received()[k] == (
                        sender,
                        items.subrange(
                            XCM_BATCH_SIZE * (k - base),
                            XCM_BATCH_SIZE * (k - base) + XCM_BATCH_SIZE,
                        ),
                    ),
            decreases page.len() - pos,
        {
            if pos >= page.len() {
                if batch.len() > 0 {
                    if !budget.try_consume(costs.batch_enqueue) {
                        return PageOutcome::Halted;
                    }
                    let ghost pre = sink.received();
                    let ghost bv = batch_view(batch@);
                    let accepted = sink.enqueue(sender, &batch, drop_threshold);
                    proof {
                        Self::lemma_entry_extends(
                            pre,
                            sink.received(),
                            sender,
                            page@,
                            base,
                            items,
                            done - batch@.len(),
                            done,
                            accepted as int,
                            bv,
                        );
                        assert(bv.take(accepted as int) =~= items.subrange(
                            done - batch@.len(),
                            done - batch@.len() + accepted,
                        ));
                        assert(items =~= items.take(done));
                    }
                    if accepted < batch.len() {
                        return PageOutcome::PeerStopped;
                    }
                    return PageOutcome::Completed;
                }
                proof {
                    assert(items =~= items.take(done));
                }
                return PageOutcome::Completed;
            }
            if !budget.try_consume(costs.message_decode) {
                return PageOutcome::Halted;
            }
            match wire::decode_fragment(page, pos) {
                None => {
                    proof {
                        assert(decoded_items(page@, pos as int) =~= Seq::<Seq<u8>>::empty());
                        assert(items =~= items.take(done));
                    }
                    if batch.len() > 0 {
                        if !budget.try_consume(costs.batch_enqueue) {
                            return PageOutcome::Halted;
                        }
                        let ghost pre = sink.received();
                        let ghost bv = batch_view(batch@);
                        let accepted = sink.enqueue(sender, &batch, drop_threshold);
                        proof {
                            Self::lemma_entry_extends(
                                pre,
                                sink.received(),
                                sender,
                                page@,
                                base,
                                items,
                                done - batch@.len(),
                                done,
                                accepted as int,
                                bv,
                            );
                            assert(bv.take(accepted as int) =~= items.subrange(
                                done - batch@.len(),
                                done - batch@.len() + accepted,
                            ));
                        }
                        if accepted < batch.len() {
                            return PageOutcome::PeerStopped;
                        }
                    }
                    return PageOutcome::Completed;
                },
                Some((item, p2)) => {
                    proof {
                        let rest = decoded_items(page@, p2 as int);
                        assert(decoded_items(page@, pos as int) == seq![item@] + rest);
                        assert(items[done] == item@) by {
                            assert(items == items.take(done) + (seq![item@] + rest));
                            assert((items.take(done) + (seq![item@] + rest))[done] == item@);
                        }
                        assert(items.take(done + 1) =~= items.take(done) + seq![item@]);
                        assert(items =~= items.take(done + 1) + rest);
                    }
                    batch.push(item);
                    proof {
                        done = done + 1;
                        assert(batch_view(batch@) =~= items.subrange(
                            done - batch@.len(),
                            done,
                        ));
                    }
                    pos = p2;
                    if batch.len() >= XCM_BATCH_SIZE {
                        if !budget.try_consume(costs.batch_enqueue) {
                            return PageOutcome::Halted;
                        }
                        let ghost pre = sink.received();
                        let ghost bv = batch_view(batch@);
                        let accepted = sink.enqueue(sender, &batch, drop_threshold);
                        proof {
                            Self::lemma_entry_extends(
                                pre,
                                sink.received(),
                                sender,
                                page@,
                                base,
                                items,
                                done - batch@.len(),
                                done,
                                accepted as int,
                                bv,
                            );
                            assert(bv.take(accepted as int) =~= items.subrange(
                                done - batch@.len(),
                                done - batch@.len() + accepted,
                            ));
                        }
                        if accepted < batch.len() {
                            return PageOutcome::PeerStopped;
                        }
                        batch = Vec::new();
                        proof {
                            assert(bv.take(batch@.len() as int) =~= Seq::<Seq<u8>>::empty());
                            assert(batch_view(batch@) =~= items.subrange(done, done));
                            assert(sink.received().last().1 =~= items.subrange(
                                done - XCM_BATCH_SIZE,
                                done,
                            ));
                        }
                    }
                },
            }
        }
    }

    /// Pushing one run-of-fragments entry keeps the sink history's shape:
    /// the old entries stay, and the new one is a run from this page.
    proof fn lemma_entry_extends(
        pre: Seq<(u32, Seq<Seq<u8>>)>,
        post: Seq<(u32, Seq<Seq<u8>>)>,
        sender: u32,
        page: Seq<u8>,
        base: int,
        items: Seq<Seq<u8>>,
        a: int,
        b: int,
        accepted: int,
        bview: Seq<Seq<u8>>,
    )
        requires
            0 <= base <= pre.len(),
            pre.subrange(0, base) == pre.subrange(0, base),
            post == pre.push((sender, bview.take(accepted))),
            0 <= a <= b <= items.len(),
            bview == items.subrange(a, b),
            0 <= accepted <= bview.len(),
            items == decoded_items(page, 1),
            forall|k: int| base <= k < pre.len() ==> entry_from_page(#[trigger] pre[k], sender, page),
        ensures
            post.len() == pre.len() + 1,
            post.subrange(0, base) == pre.subrange(0, base),
            forall|k: int| base <= k < post.len() ==> entry_from_page(#[trigger] post[k], sender, page),
    {
        assert(post.subrange(0, base) =~= pre.subrange(0, base));
        assert forall|k: int| base <= k < post.len() implies entry_from_page(
            #[trigger] post[k],
            sender,
            page,
        ) by {
            if k < pre.len() {
                assert(post[k] == pre[k]);
            } else {
                assert(post[k] == (sender, bview.take(accepted)));
                assert(bview.take(accepted) =~= items.subrange(a, a + accepted));
            }
        }
    }

    /// Processes one block's inbound pages under `budget`.
    ///
    /// Each page is dispatched on its format header: `Signals` pages drive
    /// the sender's outbound record, `ConcatenatedPayload` pages go
    /// downstream in batches, anything else is dropped. The first payload
    /// page of a peer carries a budget surcharge; a peer whose batch the
    /// consumer rejects is not served again this block; budget exhaustion
    /// stops everything. Only the channel registry is written; pages,
    /// signals, fees and the suspended set stay as they were. For a block
    /// without payload pages the registry and budget afterwards are exactly
    /// the [`signals_block_step`] fold of the pages, and the consumer sees
    /// nothing.
    pub fn handle_xcmp_messages<D: DownstreamSink>(
        &mut self,
        pages: &Vec<(u32, Vec<u8>)>,
        costs: &ProcessCosts,
        budget: &mut Budget,
        sink: &mut D,
    )
        requires
            old(self).wf(),
        ensures
            final(self).wf(),
            *final(self) == (XcmpQueue { channels: final(self).channels, ..*old(self) }),
            final(budget).remaining <= old(budget).remaining,
            final(sink).received().len() >= old(sink).received().len(),
            final(sink).received().subrange(0, old(sink).received().len() as int) == old(
                sink,
            ).received(),
            forall|k: int|
                old(sink).received().len() <= k < final(sink).received().len()
                    ==> entry_from_pages(#[trigger] final(sink).received()[k], pages@),
            (forall|j: int| 0 <= j < pages@.len() ==> !is_payload_page(#[trigger] pages@[j]))
                ==> ({
                let (cs2, b2, _) = signals_block_step(
                    old(self).channels@,
                    old(self).limits.max_active_outbound_channels as int,
                    pages@,
                    pages@.len() as int,
                    old(budget).remaining,
                    costs.signal_process,
                );
                &&& final(self).channels@ == cs2
                &&& final(budget).remaining == b2
                &&& final(sink).received() == old(sink).received()
            }),
            pages@.len() == 1 && is_payload_page(pages@[0]) && old(budget).remaining
                >= costs.first_touch ==> final(budget).remaining <= old(budget).remaining
                - costs.first_touch,
            pages@.len() == 1 && is_payload_page(pages@[0]) && old(budget).remaining
                < costs.first_touch ==> *final(self) == *old(self) && final(budget).remaining
                == old(budget).remaining && final(sink).received() == old(sink).received(),
    {
        let ghost base = old(sink).received().len() as int;
        let ghost cap = old(self).limits.max_active_outbound_channels as int;
        let ghost nopay = forall|j: int|
            0 <= j < pages@.len() ==> !is_payload_page(#[trigger] pages@[j]);
        let ghost solo = pages@.len() == 1 && is_payload_page(pages@[0]);
        let mut seen: Vec<u32> = Vec::new();
        let mut stopped: Vec<u32> = Vec::new();
        let mut i: usize = 0;
        while i < pages.len()
            invariant
                i <= pages.len(),
                self.wf(),
                *self == (XcmpQueue { channels: self.channels, ..*old(self) }),
                budget.remaining <= old(budget).remaining,
                base == old(sink).received().len(),
                cap == old(self).limits.max_active_outbound_channels as int,
                nopay == (forall|j: int|
                    0 <= j < pages@.len() ==> !is_payload_page(#[trigger] pages@[j])),
                sink.received().len() >= base,
                sink.received().subrange(0, base) == old(sink).received(),
                forall|k: int|
                    base <= k < sink.received().len() ==> entry_from_pages(
                        #[trigger] sink.received()[k],
                        pages@,
                    ),
                nopay ==> stopped@.len() == 0,
                nopay ==> sink.received() == old(sink).received(),
                nopay ==> (self.channels@, budget.remaining, false) == signals_block_step(
                    old(self).channels@,
                    cap,
                    pages@,
                    i as int,
                    old(budget).remaining,
                    costs.signal_process,
                ),
                solo == (pages@.len() == 1 && is_payload_page(pages@[0])),
                solo && i == 0 ==> budget.remaining == old(budget).remaining && *self == *old(
                    self,
                ) && sink.received() == old(sink).received() && stopped@.len() == 0
                    && seen@.len() == 0,
                solo && old(budget).remaining < costs.first_touch ==> i == 0,
                solo && old(budget).remaining >= costs.first_touch && i >= 1
                    ==> budget.remaining <= old(budget).remaining - costs.first_touch,
            decreases pages.len() - i,
        {
            let ghost fold_pre = signals_block_step(
                old(self).channels@,
                cap,
                pages@,
                i as int,
                old(budget).remaining,
                costs.signal_process,
            );
            let sender = pages[i].0;
            let data = &pages[i].1;
            if vec_contains(&stopped, sender) {
                proof {
                    if nopay {
                        assert(stopped@.contains(sender) && stopped@.len() == 0);
                        assert(false);
                    }
                }
                i = i + 1;
                continue;
            }
            if data.len() == 0 {
                proof {
                    if nopay {
                        assert(signals_block_step(
                            old(self).channels@,
                            cap,
                            pages@,
                            i as int + 1,
                            old(budget).remaining,
                            costs.signal_process,
                        ) == fold_pre);
                    }
                }
                i = i + 1;
                continue;
            }
            match wire::decode_format(data[0]) {
                None => {
                    proof {
                        if nopay {
                            assert(pages@[i as int].1@[0] > 2);
                            assert(signals_block_step(
                                old(self).channels@,
                                cap,
                                pages@,
                                i as int + 1,
                                old(budget).remaining,
                                costs.signal_process,
                            ) == fold_pre);
                        }
                    }
                },
                Some(PageFormat::Signals) => {
                    let ghost pre_cs = self.channels@;
                    let ghost pre_b = budget.remaining;
                    let halted = self.process_signals_page(
                        sender,
                        data,
                        budget,
                        costs.signal_process,
                    );
                    proof {
                        if nopay {
                            assert(pages@[i as int].1@[0] == format_byte(PageFormat::Signals));
                            assert(signals_block_step(
                                old(self).channels@,
                                cap,
                                pages@,
                                i as int + 1,
                                old(budget).remaining,
                                costs.signal_process,
                            ) == signals_step(
                                pre_cs,
                                cap,
                                sender,
                                pages@[i as int].1@,
                                1,
                                pre_b,
                                costs.signal_process,
                            ));
                        }
                    }
                    if halted {
                        proof {
                            if nopay {
                                lemma_block_step_halted(
                                    old(self).channels@,
                                    cap,
                                    pages@,
                                    i as int + 1,
                                    pages@.len() as int,
                                    old(budget).remaining,
                                    costs.signal_process,
                                );
                            }
                        }
                        return;
                    }
                },
                Some(PageFormat::ConcatenatedPayload) => {
                    proof {
                        if nopay {
                            assert(is_payload_page(pages@[i as int]));
                            assert(false);
                        }
                    }
                    if !vec_contains(&seen, sender) {
                        if !budget.try_consume(costs.first_touch) {
                            return;
                        }
                        seen.push(sender);
                    }
                    let ghost pre = sink.received();
                    let drop_threshold = self.config.drop_threshold;
                    let outcome = Self::process_payload_page(
                        sender,
                        data,
                        drop_threshold,
                        budget,
                        costs,
                        sink,
                    );
                    proof {
                        assert(sink.received().subrange(0, base) =~= old(sink).received()) by {
                            assert(sink.received().subrange(0, pre.len() as int) == pre);
                            assert forall|k: int| 0 <= k < base implies sink.received()[k] == old(
                                sink,
                            ).received()[k] by {
                                assert(sink.received()[k] == pre[k]);
                            }
                        }
                        assert forall|k: int|
                            base <= k < sink.received().len() implies entry_from_pages(
                            #[trigger] sink.received()[k],
                            pages@,
                        ) by {
                            if k < pre.len() {
                                assert(sink.received()[k] == pre[k]);
                                assert(entry_from_pages(pre[k], pages@));
                            } else {
                                assert(entry_from_page(sink.received()[k], sender, data@));
                                assert(entry_matches(sink.received()[k], pages@[i as int]));
                            }
                        }
                    }
                    match outcome {
                        PageOutcome::Halted => {
                            return;
                        },
                        PageOutcome::PeerStopped => {
                            stopped.push(sender);
                        },
                        PageOutcome::Completed => {},
                    }
                },
                Some(PageFormat::UnsupportedBlob) => {
                    proof {
                        if nopay {
                            assert(pages@[i as int].1@[0] == 1);
                            assert(signals_block_step(
                                old(self).channels@,
                                cap,
                                pages@,
                                i as int + 1,
                                old(budget).remaining,
                                costs.signal_process,
                            ) == fold_pre);
                        }
                    }
                },
            }
            i = i + 1;
        }
    }
}


/// Decodes every fragment of a payload page body, from `start` to the first
/// malformed position.
pub fn decode_page_items(page: &Vec<u8>, start: usize) -> (r: Vec<Vec<u8>>)
    ensures
        batch_view(r@) == decoded_items(page@, start as int),
{
    let ghost items = decoded_items(page@, start as int);
    let mut out: Vec<Vec<u8>> = Vec::new();
    let mut pos = start;
    let ghost mut done: int = 0;
    proof {
        assert(items =~= items.take(0) + decoded_items(page@, start as int));
        assert(batch_view(out@) =~= items.take(0));
    }
    loop
        invariant
            start <= pos,
            0 <= done <= items.len(),
            out@.len() == done,
            batch_view(out@) == items.take(done),
            items == items.take(done) + decoded_items(page@, pos as int),
            items == decoded_items(page@, start as int),
        decreases page.len() - pos,
    {
        match wire::decode_fragment(page, pos) {
            None => {
                proof {
                    assert(decoded_items(page@, pos as int) =~= Seq::<Seq<u8>>::empty());
                    assert(items =~= items.take(done));
                    assert(batch_view(out@) =~= items);
                }
                return out;
            },
            Some((item, p2)) => {
                proof {
                    let rest = decoded_items(page@, p2 as int);
                    assert(decoded_items(page@, pos as int) == seq![item@] + rest);
                    assert(items[done] == item@) by {
                        assert(items == items.take(done) + (seq![item@] + rest));
                        assert((items.take(done) + (seq![item@] + rest))[done] == item@);
                    }
                    assert(items.take(done + 1) =~= items.take(done) + seq![item@]);
                    assert(items =~= items.take(done + 1) + rest);
                }
                out.push(item);
                proof {
                    done = done + 1;
                    assert(batch_view(out@) =~= items.take(done));
                }
                pos = p2;
            },
        }
    }
}

} // verus!
