//! The outbound extraction scheduler.
//!
//! Once per block the scheduler visits the channel registry in order, under
//! a channel-count budget: a closed channel is purged, a full one skipped, a
//! pending signal emitted ahead of data, and otherwise the oldest data page
//! of an `Open` channel goes out. Emitted pages are returned sorted by peer;
//! drained records are pruned and the rest rotated so no peer starves.

use vstd::prelude::*;

use crate::channel::ChannelStatus;
use crate::channel::PeerChannel;
use crate::channel::OutboundChannelDetails;
use crate::channel::OutboundState;
use crate::channel::TransportSnapshot;
use crate::budget::batch_view;
use crate::budget::stored_batches_view;
use crate::fee;
use crate::inbound::decode_page_items;
use crate::outbound::copy_bytes;
use crate::wire::decoded_items;
use crate::wire::format_byte;
use crate::wire::PageFormat;
use crate::state::covers;
use crate::state::QueueLimits;
use crate::state::XcmpQueue;
use crate::store::page_key;

verus! {

/// The stores and outputs the sweep threads from channel to channel.
pub struct SweepState {
    /// The page store as the sweep has left it.
    pub pages: Map<u64, Seq<u8>>,
    /// The signal store as the sweep has left it.
    pub signals: Map<u32, Seq<u8>>,
    /// The fee store as the sweep has left it.
    pub fees: Map<u32, u128>,
    /// The pages emitted so far, in visitation order.
    pub out: Seq<(u32, Seq<u8>)>,
    /// Whether the channel-count budget has cut the sweep short.
    pub stopped: bool,
}

/// A result list as mathematical pairs.
pub open spec fn pairs_view(s: Seq<(u32, Vec<u8>)>) -> Seq<(u32, Seq<u8>)> {
    Seq::new(s.len(), |i: int| (s[i].0, s[i].1@))
}

/// `pages` with every entry of `peer` in `[first, last)` deleted.
pub open spec fn remove_peer_pages(
    pages: Map<u64, Seq<u8>>,
    peer: u32,
    first: u16,
    last: u16,
) -> Map<u64, Seq<u8>> {
    Map::new(
        |k: u64|
            pages.contains_key(k) && !(k / 0x1_0000 == peer && first <= k % 0x1_0000 < last),
        |k: u64| pages[k],
    )
}

/// The queued bytes of `peer` over page indices `[first, last)`.
pub open spec fn sum_page_len(pages: Map<u64, Seq<u8>>, peer: u32, first: int, last: int) -> int
    decreases last - first,
{
    if last <= first {
        0
    } else {
        pages[page_key(peer, first as u16)].len() + sum_page_len(pages, peer, first + 1, last)
    }
}

/// A drained range snaps back to zero.
pub open spec fn reset_if_empty(c: OutboundChannelDetails) -> OutboundChannelDetails {
    if c.first_index == c.last_index {
        OutboundChannelDetails { first_index: 0u16, last_index: 0u16, ..c }
    } else {
        c
    }
}

/// The fee store after the decay check ran for `peer`.
pub open spec fn fees_after_decay(fees: Map<u32, u128>, peer: u32, floor: u128) -> Map<
    u32,
    u128,
> {
    fees.insert(peer, fee::clamped(fee::decayed(fee::factor_of(fees, peer, floor)), floor))
}

/// One channel's visit: what it does to the stores, what it emits, and the
/// record it leaves behind.
///
/// A peer the transport no longer reports is treated as closed. Emission of
/// an oversize page (older than the channel's shrunken limit) is skipped and
/// the page is dropped, as the host logs.
pub open spec fn channel_step(
    st: SweepState,
    t: TransportSnapshot,
    limit: int,
    limits: QueueLimits,
    c: OutboundChannelDetails,
) -> (SweepState, OutboundChannelDetails) {
    if st.stopped {
        (st, c)
    } else {
        match t.lookup(c.recipient) {
            None => (closed_step(st, c), drained_record(c.recipient)),
            Some(pc) => match pc.status {
                ChannelStatus::Closed => (closed_step(st, c), drained_record(c.recipient)),
                ChannelStatus::Full => (st, c),
                ChannelStatus::Ready(now, ever) => {
                    if st.out.len() >= limit {
                        (SweepState { stopped: true, ..st }, c)
                    } else if c.signals_exist {
                        let spage = st.signals[c.recipient];
                        if spage.len() < now {
                            let c2 = reset_if_empty(
                                OutboundChannelDetails { signals_exist: false, ..c },
                            );
                            emit_step(
                                SweepState { signals: st.signals.remove(c.recipient), ..st },
                                c.recipient,
                                spage,
                                ever,
                                pc.max_total_size as int / 2,
                                limits,
                                c2,
                            )
                        } else {
                            (st, c)
                        }
                    } else if c.state == OutboundState::Suspended {
                        (st, c)
                    } else if c.last_index > c.first_index {
                        let pg = st.pages[page_key(c.recipient, c.first_index)];
                        if pg.len() < now {
                            let c2 = reset_if_empty(
                                OutboundChannelDetails {
                                    first_index: (c.first_index + 1) as u16,
                                    ..c
                                },
                            );
                            emit_step(
                                SweepState {
                                    pages: st.pages.remove(page_key(c.recipient, c.first_index)),
                                    ..st
                                },
                                c.recipient,
                                pg,
                                ever,
                                pc.max_total_size as int / 2,
                                limits,
                                c2,
                            )
                        } else {
                            (st, c)
                        }
                    } else {
                        (st, c)
                    }
                },
            },
        }
    }
}

/// The empty record a purged channel leaves behind.
pub open spec fn drained_record(peer: u32) -> OutboundChannelDetails {
    OutboundChannelDetails {
        recipient: peer,
        state: OutboundState::Open,
        signals_exist: false,
        first_index: 0u16,
        last_index: 0u16,
    }
}

/// A closed channel's visit: its pages and signal entry are purged.
pub open spec fn closed_step(st: SweepState, c: OutboundChannelDetails) -> SweepState {
    SweepState {
        pages: remove_peer_pages(st.pages, c.recipient, c.first_index, c.last_index),
        signals: if c.signals_exist {
            st.signals.remove(c.recipient)
        } else {
            st.signals
        },
        ..st
    }
}

/// The shared tail of both emission paths: the page goes out unless it has
/// outgrown the channel's historical limit, and the fee factor decays when
/// the remaining occupancy is at or under the threshold.
pub open spec fn emit_step(
    st: SweepState,
    peer: u32,
    page: Seq<u8>,
    ever: u32,
    threshold: int,
    limits: QueueLimits,
    c2: OutboundChannelDetails,
) -> (SweepState, OutboundChannelDetails) {
    let out2 = if page.len() <= ever {
        st.out.push((peer, page))
    } else {
        st.out
    };
    let remaining = sum_page_len(st.pages, peer, c2.first_index as int, c2.last_index as int);
    let fees2 = if remaining <= threshold {
        fees_after_decay(st.fees, peer, limits.min_fee_factor)
    } else {
        st.fees
    };
    (SweepState { out: out2, fees: fees2, ..st }, c2)
}

/// The sweep over the first `i` registry records of `q`.
pub open spec fn sweep(q: XcmpQueue, t: TransportSnapshot, limit: int, i: int) -> (
    SweepState,
    Seq<OutboundChannelDetails>,
)
    decreases i,
{
    if i <= 0 {
        (
            SweepState {
                pages: q.pages@,
                signals: q.signals@,
                fees: q.fees@,
                out: Seq::empty(),
                stopped: false,
            },
            Seq::empty(),
        )
    } else {
        let (st, done) = sweep(q, t, limit, i - 1);
        let (st2, c2) = channel_step(st, t, limit, q.limits, q.channels@[i - 1]);
        (st2, done.push(c2))
    }
}

/// Whether a record survives the post-sweep pruning.
pub open spec fn keeps_record(c: OutboundChannelDetails) -> bool {
    c.state == OutboundState::Suspended || c.signals_exist || c.first_index < c.last_index
}

/// The records that survive pruning, in order.
pub open spec fn retained(cs: Seq<OutboundChannelDetails>) -> Seq<OutboundChannelDetails>
    decreases cs.len(),
{
    if cs.len() == 0 {
        Seq::empty()
    } else {
        retained(cs.drop_last()) + (if keeps_record(cs.last()) {
            seq![cs.last()]
        } else {
            Seq::empty()
        })
    }
}

/// `s` rotated left by `k` positions.
pub open spec fn rotated_left(s: Seq<OutboundChannelDetails>, k: int) -> Seq<
    OutboundChannelDetails,
> {
    s.subrange(k, s.len() as int) + s.subrange(0, k)
}

/// Inserts `e` into a result list sorted by ascending peer.
pub open spec fn sorted_insert(s: Seq<(u32, Seq<u8>)>, e: (u32, Seq<u8>)) -> Seq<(u32, Seq<u8>)>
    decreases s.len(),
{
    if s.len() == 0 {
        seq![e]
    } else if e.0 < s[0].0 {
        seq![e] + s
    } else {
        seq![s[0]] + sorted_insert(s.drop_first(), e)
    }
}

/// The result list sorted by ascending peer, by repeated insertion.
pub open spec fn sort_by_peer(s: Seq<(u32, Seq<u8>)>) -> Seq<(u32, Seq<u8>)>
    decreases s.len(),
{
    if s.len() == 0 {
        Seq::empty()
    } else {
        sorted_insert(sort_by_peer(s.drop_last()), s.last())
    }
}

/// Whether a result list is sorted by ascending peer.
pub open spec fn sorted_by_peer(s: Seq<(u32, Seq<u8>)>) -> bool {
    forall|i: int, j: int| 0 <= i < j < s.len() ==> (#[trigger] s[i]).0 <= (#[trigger] s[j]).0
}


/// The structural facts the sweep maintains between the stores and the
/// records (processed ones updated, unprocessed ones original).
pub open spec fn stores_consistent(
    st: SweepState,
    cs: Seq<OutboundChannelDetails>,
    limits: QueueLimits,
) -> bool {
    &&& forall|j: int|
        0 <= j < cs.len() ==> (#[trigger] cs[j]).first_index <= cs[j].last_index
    &&& forall|j: int, x: u16|
        0 <= j < cs.len() && cs[j].first_index <= x < cs[j].last_index ==> st.pages.contains_key(
            #[trigger] page_key(cs[j].recipient, x),
        )
    &&& forall|j: int|
        0 <= j < cs.len() && (#[trigger] cs[j]).signals_exist ==> st.signals.contains_key(
            cs[j].recipient,
        )
    &&& forall|k: u64|
        #[trigger] st.pages.contains_key(k) ==> exists|j: int|
            0 <= j < cs.len() && covers(cs[j], k)
    &&& forall|p: u32|
        #[trigger] st.signals.contains_key(p) ==> exists|j: int|
            0 <= j < cs.len() && (#[trigger] cs[j]).recipient == p && cs[j].signals_exist
    &&& forall|k: u64|
        #[trigger] st.pages.contains_key(k) ==> 1 <= st.pages[k].len() <= limits.max_page_size
    &&& forall|p: u32|
        #[trigger] st.signals.contains_key(p) ==> 1 <= st.signals[p].len()
            <= limits.max_page_size
    &&& forall|p: u32|
        #[trigger] st.fees.contains_key(p) ==> st.fees[p] >= limits.min_fee_factor
}

/// No two of these records concern the same peer.
pub open spec fn unique_recipients(cs: Seq<OutboundChannelDetails>) -> bool {
    forall|i: int, j: int|
        0 <= i < j < cs.len() ==> (#[trigger] cs[i]).recipient != (#[trigger] cs[j]).recipient
}

/// One channel's visit keeps the stores consistent with the registry in
/// which that channel's record has been replaced by what the visit left.
pub proof fn lemma_step_consistent(
    st: SweepState,
    t: TransportSnapshot,
    limit: int,
    limits: QueueLimits,
    cs: Seq<OutboundChannelDetails>,
    idx: int,
)
    requires
        stores_consistent(st, cs, limits),
        unique_recipients(cs),
        0 <= idx < cs.len(),
    ensures
        ({
            let (st2, c2) = channel_step(st, t, limit, limits, cs[idx]);
            &&& stores_consistent(st2, cs.update(idx, c2), limits)
            &&& c2.recipient == cs[idx].recipient
            &&& c2.first_index <= c2.last_index
            &&& unique_recipients(cs.update(idx, c2))
        }),
{
    let c = cs[idx];
    let (st2, c2) = channel_step(st, t, limit, limits, c);
    let cs2 = cs.update(idx, c2);
    let purged = !st.stopped && (t.lookup(c.recipient) is None || t.lookup(
        c.recipient,
    ).unwrap().status is Closed);
    assert(c2.recipient == c.recipient);
    assert(c2.first_index <= c2.last_index);
    assert forall|i: int, j: int|
        0 <= i < j < cs2.len() implies (#[trigger] cs2[i]).recipient != (
    #[trigger] cs2[j]).recipient by {
        assert(cs[i].recipient != cs[j].recipient);
    }
    // Ranges of every record stay backed.
    assert forall|j: int, x: u16|
        0 <= j < cs2.len() && cs2[j].first_index <= x < cs2[j].last_index implies st2.pages.contains_key(
        #[trigger] page_key(cs2[j].recipient, x),
    ) by {
        crate::state::lemma_page_key_parts(cs2[j].recipient, x);
        if j == idx {
            assert(st.pages.contains_key(page_key(c.recipient, x)));
        } else {
            assert(st.pages.contains_key(page_key(cs[j].recipient, x)));
            assert(cs[j].recipient != c.recipient);
        }
    }
    // Signal flags stay backed.
    assert forall|j: int|
        0 <= j < cs2.len() && (#[trigger] cs2[j]).signals_exist implies st2.signals.contains_key(
        cs2[j].recipient,
    ) by {
        if j != idx {
            assert(st.signals.contains_key(cs[j].recipient));
            assert(cs[j].recipient != c.recipient);
        }
    }
    // Every page still belongs to some record's range.
    assert forall|k: u64| #[trigger] st2.pages.contains_key(k) implies exists|j: int|
        0 <= j < cs2.len() && covers(cs2[j], k) by {
        assert(st.pages.contains_key(k));
        let j = choose|j: int| 0 <= j < cs.len() && covers(cs[j], k);
        if j == idx {
            assert(k / 0x1_0000 == c.recipient);
            if purged {
                assert(!st2.pages.contains_key(k));
            } else {
                crate::state::lemma_page_key_parts(c.recipient, c.first_index);
                assert(covers(cs2[idx], k));
            }
        } else {
            assert(covers(cs2[j], k));
        }
    }
    // Every pending signal still belongs to some flagged record.
    assert forall|p: u32| #[trigger] st2.signals.contains_key(p) implies exists|j: int|
        0 <= j < cs2.len() && (#[trigger] cs2[j]).recipient == p && cs2[j].signals_exist by {
        assert(st.signals.contains_key(p));
        let j = choose|j: int|
            0 <= j < cs.len() && (#[trigger] cs[j]).recipient == p && cs[j].signals_exist;
        if j == idx {
            if cs2[idx].signals_exist {
                assert(cs2[idx].recipient == p && cs2[idx].signals_exist);
            } else {
                assert(!st2.signals.contains_key(p));
            }
        } else {
            assert(cs2[j].recipient == p && cs2[j].signals_exist);
        }
    }
}


/// A page key splits into its peer and index digits.
proof fn lemma_key_decompose(k: u64)
    ensures
        k == (k / 0x1_0000) * 0x1_0000 + k % 0x1_0000,
        0 <= k % 0x1_0000 < 0x1_0000,
{
    assert(k == (k / 0x1_0000) * 0x1_0000 + k % 0x1_0000 && 0 <= k % 0x1_0000 < 0x1_0000)
        by (nonlinear_arith);
}

impl XcmpQueue {
    /// Deletes every queued page of `c`'s peer and its pending signal.
    fn purge_channel(&mut self, c: OutboundChannelDetails)
        requires
            c.first_index <= c.last_index,
        ensures
            final(self).pages@ == remove_peer_pages(
                old(self).pages@,
                c.recipient,
                c.first_index,
                c.last_index,
            ),
            final(self).signals@ == if c.signals_exist {
                old(self).signals@.remove(c.recipient)
            } else {
                old(self).signals@
            },
            *final(self) == (XcmpQueue {
                pages: final(self).pages,
                signals: final(self).signals,
                ..*old(self)
            }),
    {
        let mut x = c.first_index;
        proof {
            assert(self.pages@ =~= remove_peer_pages(
                old(self).pages@,
                c.recipient,
                c.first_index,
                c.first_index,
            ));
        }
        while x < c.last_index
            invariant
                c.first_index <= x <= c.last_index,
                self.pages@ == remove_peer_pages(
                    old(self).pages@,
                    c.recipient,
                    c.first_index,
                    x,
                ),
                *self == (XcmpQueue { pages: self.pages, ..*old(self) }),
            decreases c.last_index - x,
        {
            self.pages.remove(c.recipient, x);
            proof {
                crate::state::lemma_page_key_parts(c.recipient, x);
                assert forall|k: u64|
                    self.pages@.contains_key(k) == remove_peer_pages(
                        old(self).pages@,
                        c.recipient,
                        c.first_index,
                        (x + 1) as u16,
                    ).contains_key(k) by {
                    lemma_key_decompose(k);
                    if k / 0x1_0000 == c.recipient && k % 0x1_0000 == x {
                        assert(k == page_key(c.recipient, x));
                    }
                }
                assert(self.pages@ =~= remove_peer_pages(
                    old(self).pages@,
                    c.recipient,
                    c.first_index,
                    (x + 1) as u16,
                ));
            }
            x = x + 1;
        }
        if c.signals_exist {
            self.signals.remove(c.recipient);
        }
    }

    /// The queued bytes for `peer` over `[first, last)`.
    fn remaining_size(&self, peer: u32, first: u16, last: u16) -> (r: u64)
        requires
            first <= last,
            forall|x: u16|
                first <= x < last ==> self.pages@.contains_key(#[trigger] page_key(peer, x)),
            forall|k: u64|
                #[trigger] self.pages@.contains_key(k) ==> self.pages@[k].len()
                    <= self.limits.max_page_size,
            self.limits.max_page_size <= 0x4000_0000,
        ensures
            r == sum_page_len(self.pages@, peer, first as int, last as int),
    {
        let mut total: u64 = 0;
        let mut x = first;
        while x < last
            invariant
                first <= x <= last,
                forall|y: u16|
                    first <= y < last ==> self.pages@.contains_key(#[trigger] page_key(peer, y)),
                forall|k: u64|
                    #[trigger] self.pages@.contains_key(k) ==> self.pages@[k].len()
                        <= self.limits.max_page_size,
                self.limits.max_page_size <= 0x4000_0000,
                total <= (x - first) * (self.limits.max_page_size as int),
                sum_page_len(self.pages@, peer, first as int, last as int) == total
                    + sum_page_len(self.pages@, peer, x as int, last as int),
            decreases last - x,
        {
            proof {
                assert((x - first) * (self.limits.max_page_size as int) <= 0x1_0000 * 0x4000_0000)
                    by (nonlinear_arith)
                    requires
                        0 <= x - first <= 0x1_0000,
                        0 <= self.limits.max_page_size as int <= 0x4000_0000,
                ;
            }
            let p = match self.pages.get(peer, x) {
                Some(p) => p,
                None => {
                    proof {
                        assert(false);
                    }
                    return 0;
                },
            };
            proof {
                assert((x - first) * (self.limits.max_page_size as int)
                    + self.limits.max_page_size as int == (x + 1 - first) * (
                self.limits.max_page_size as int)) by (nonlinear_arith);
            }
            total = total + p.len() as u64;
            x = x + 1;
        }
        total
    }

    /// The shared tail of both emission paths.
    fn emit_tail(
        &mut self,
        pc: PeerChannel,
        peer: u32,
        page: Vec<u8>,
        ever: u32,
        result: &mut Vec<(u32, Vec<u8>)>,
        c2: OutboundChannelDetails,
    )
        requires
            c2.first_index <= c2.last_index,
            forall|x: u16|
                c2.first_index <= x < c2.last_index ==> old(self).pages@.contains_key(
                    #[trigger] page_key(peer, x),
                ),
            forall|k: u64|
                #[trigger] old(self).pages@.contains_key(k) ==> old(self).pages@[k].len()
                    <= old(self).limits.max_page_size,
            old(self).limits.max_page_size <= 0x4000_0000,
            c2.recipient == peer,
        ensures
            ({
                let st = SweepState {
                    pages: old(self).pages@,
                    signals: old(self).signals@,
                    fees: old(self).fees@,
                    out: pairs_view(old(result)@),
                    stopped: false,
                };
                let (st2, c3) = emit_step(
                    st,
                    peer,
                    page@,
                    ever,
                    pc.max_total_size as int / 2,
                    old(self).limits,
                    c2,
                );
                &&& final(self).fees@ == st2.fees
                &&& pairs_view(final(result)@) == st2.out
            }),
            *final(self) == (XcmpQueue { fees: final(self).fees, ..*old(self) }),
    {
        let ghost out0 = pairs_view(result@);
        if page.len() as u64 <= ever as u64 {
            let ghost pv = page@;
            result.push((peer, page));
            proof {
                assert(pairs_view(result@) =~= out0.push((peer, pv)));
            }
        }
        let remaining = self.remaining_size(peer, c2.first_index, c2.last_index);
        let threshold: u64 = (pc.max_total_size / 2) as u64;
        if remaining <= threshold {
            let floor = self.limits.min_fee_factor;
            let cur = self.fees.get_or(peer, floor);
            let next = fee::decay(cur);
            let v = if next >= floor {
                next
            } else {
                floor
            };
            self.fees.set(peer, v);
        }
    }

    /// One channel's visit of the extraction sweep.
    fn sweep_channel(
        &mut self,
        transport: &TransportSnapshot,
        limit: usize,
        result: &mut Vec<(u32, Vec<u8>)>,
        stopped: bool,
        c: OutboundChannelDetails,
    ) -> (r: (OutboundChannelDetails, bool))
        requires
            c.first_index <= c.last_index,
            forall|x: u16|
                c.first_index <= x < c.last_index ==> old(self).pages@.contains_key(
                    #[trigger] page_key(c.recipient, x),
                ),
            c.signals_exist ==> old(self).signals@.contains_key(c.recipient),
            forall|k: u64|
                #[trigger] old(self).pages@.contains_key(k) ==> old(self).pages@[k].len()
                    <= old(self).limits.max_page_size,
            forall|p: u32|
                #[trigger] old(self).signals@.contains_key(p) ==> old(self).signals@[p].len()
                    <= old(self).limits.max_page_size,
            old(self).limits.max_page_size <= 0x4000_0000,
        ensures
            ({
                let st = SweepState {
                    pages: old(self).pages@,
                    signals: old(self).signals@,
                    fees: old(self).fees@,
                    out: pairs_view(old(result)@),
                    stopped,
                };
                let (st2, c2) = channel_step(st, *transport, limit as int, old(self).limits, c);
                &&& final(self).pages@ == st2.pages
                &&& final(self).signals@ == st2.signals
                &&& final(self).fees@ == st2.fees
                &&& pairs_view(final(result)@) == st2.out
                &&& r == (c2, st2.stopped)
            }),
            *final(self) == (XcmpQueue {
                pages: final(self).pages,
                signals: final(self).signals,
                fees: final(self).fees,
                ..*old(self)
            }),
    {
        if stopped {
            return (c, true);
        }
        let pc = match transport.get(c.recipient) {
            None => {
                self.purge_channel(c);
                return (
                    OutboundChannelDetails {
                        recipient: c.recipient,
                        state: OutboundState::Open,
                        signals_exist: false,
                        first_index: 0,
                        last_index: 0,
                    },
                    false,
                );
            },
            Some(pc) => pc,
        };
        match pc.status {
            ChannelStatus::Closed => {
                self.purge_channel(c);
                (
                    OutboundChannelDetails {
                        recipient: c.recipient,
                        state: OutboundState::Open,
                        signals_exist: false,
                        first_index: 0,
                        last_index: 0,
                    },
                    false,
                )
            },
            ChannelStatus::Full => (c, false),
            ChannelStatus::Ready(now, ever) => {
                if result.len() >= limit {
                    return (c, true);
                }
                if c.signals_exist {
                    let spage_ref = match self.signals.get(c.recipient) {
                        Some(p) => p,
                        None => {
                            proof {
                                assert(false);
                            }
                            return (c, false);
                        },
                    };
                    if (spage_ref.len() as u64) < now as u64 {
                        let spage = copy_bytes(spage_ref);
                        self.signals.remove(c.recipient);
                        let mut c2 = OutboundChannelDetails { signals_exist: false, ..c };
                        if c2.first_index == c2.last_index {
                            c2 = OutboundChannelDetails {
                                first_index: 0,
                                last_index: 0,
                                ..c2
                            };
                        }
                        self.emit_tail(pc, c.recipient, spage, ever, result, c2);
                        (c2, false)
                    } else {
                        (c, false)
                    }
                } else if matches!(c.state, OutboundState::Suspended) {
                    (c, false)
                } else if c.last_index > c.first_index {
                    let pg_ref = match self.pages.get(c.recipient, c.first_index) {
                        Some(p) => p,
                        None => {
                            proof {
                                assert(false);
                            }
                            return (c, false);
                        },
                    };
                    if (pg_ref.len() as u64) < now as u64 {
                        let pg = copy_bytes(pg_ref);
                        self.pages.remove(c.recipient, c.first_index);
                        let mut c2 = OutboundChannelDetails {
                            first_index: c.first_index + 1,
                            ..c
                        };
                        if c2.first_index == c2.last_index {
                            c2 = OutboundChannelDetails {
                                first_index: 0,
                                last_index: 0,
                                ..c2
                            };
                        }
                        proof {
                            crate::state::lemma_page_key_parts(c.recipient, c.first_index);
                            assert forall|x: u16|
                                c2.first_index <= x < c2.last_index implies self.pages@.contains_key(
                                #[trigger] page_key(c.recipient, x),
                            ) by {
                                crate::state::lemma_page_key_parts(c.recipient, x);
                            }
                        }
                        self.emit_tail(pc, c.recipient, pg, ever, result, c2);
                        (c2, false)
                    } else {
                        (c, false)
                    }
                } else {
                    (c, false)
                }
            },
        }
    }
}


/// Inserting at the position the scan found is what `sorted_insert` does.
proof fn lemma_sorted_insert_at(s: Seq<(u32, Seq<u8>)>, e: (u32, Seq<u8>), idx: int)
    requires
        0 <= idx <= s.len(),
        forall|j: int| 0 <= j < idx ==> (#[trigger] s[j]).0 <= e.0,
        idx < s.len() ==> e.0 < s[idx].0,
    ensures
        sorted_insert(s, e) == s.insert(idx, e),
    decreases idx,
{
    if idx == 0 {
        if s.len() == 0 {
            assert(sorted_insert(s, e) =~= s.insert(0, e));
        } else {
            assert(e.0 < s[0].0);
            assert(seq![e] + s =~= s.insert(0, e));
        }
    } else {
        assert(s[0].0 <= e.0);
        lemma_sorted_insert_at(s.drop_first(), e, idx - 1);
        assert(seq![s[0]] + s.drop_first().insert(idx - 1, e) =~= s.insert(idx, e));
    }
}

/// What survives pruning: a selection of the original records, with every
/// kept record present and uniqueness of peers preserved.
proof fn lemma_retained_props(cs: Seq<OutboundChannelDetails>)
    ensures
        retained(cs).len() <= cs.len(),
        forall|j2: int|
            0 <= j2 < retained(cs).len() ==> cs.contains(#[trigger] retained(cs)[j2])
                && keeps_record(retained(cs)[j2]),
        forall|j: int|
            0 <= j < cs.len() && keeps_record(#[trigger] cs[j]) ==> retained(cs).contains(cs[j]),
        unique_recipients(cs) ==> unique_recipients(retained(cs)),
    decreases cs.len(),
{
    if cs.len() == 0 {
    } else {
        let head = cs.drop_last();
        let last = cs.last();
        lemma_retained_props(head);
        let r0 = retained(head);
        let r = retained(cs);
        assert forall|j2: int|
            0 <= j2 < r.len() implies cs.contains(#[trigger] r[j2]) && keeps_record(r[j2]) by {
            if j2 < r0.len() {
                assert(r[j2] == r0[j2]);
                assert(head.contains(r0[j2]) && keeps_record(r0[j2]));
                let j = choose|j: int| 0 <= j < head.len() && head[j] == r0[j2];
                assert(cs[j] == r[j2]);
            } else {
                assert(r[j2] == last);
                assert(cs[cs.len() - 1] == r[j2] && keeps_record(cs[cs.len() - 1]));
            }
        }
        assert forall|j: int|
            0 <= j < cs.len() && keeps_record(#[trigger] cs[j]) implies r.contains(cs[j]) by {
            if j < cs.len() - 1 {
                assert(head[j] == cs[j]);
                assert(r0.contains(cs[j]));
                let j2 = choose|j2: int| 0 <= j2 < r0.len() && r0[j2] == cs[j];
                assert(r[j2] == cs[j]);
            } else {
                assert(keeps_record(last));
                assert(r[r.len() - 1] == cs[j]);
            }
        }
        if unique_recipients(cs) {
            assert forall|a: int, b: int|
                0 <= a < b < cs.len() - 1 implies (#[trigger] head[a]).recipient != (
            #[trigger] head[b]).recipient by {
                assert(cs[a].recipient != cs[b].recipient);
            }
            assert forall|a: int, b: int|
                0 <= a < b < r.len() implies (#[trigger] r[a]).recipient != (
            #[trigger] r[b]).recipient by {
                if b < r0.len() {
                    assert(r[a] == r0[a] && r[b] == r0[b]);
                } else {
                    assert(r[b] == last);
                    assert(r[a] == r0[a]);
                    assert(head.contains(r0[a]));
                    let j = choose|j: int| 0 <= j < head.len() && head[j] == r0[a];
                    assert(cs[j] == r[a]);
                    assert(cs[j].recipient != cs[cs.len() - 1].recipient);
                }
            }
        }
    }
}

/// Reorders a result list by ascending peer, by repeated insertion.
fn sort_pairs(input: Vec<(u32, Vec<u8>)>) -> (r: Vec<(u32, Vec<u8>)>)
    ensures
        pairs_view(r@) == sort_by_peer(pairs_view(input@)),
{
    let ghost pv0 = pairs_view(input@);
    let mut rest = input;
    let mut out: Vec<(u32, Vec<u8>)> = Vec::new();
    let ghost mut taken: int = 0;
    proof {
        assert(pairs_view(rest@) =~= pv0.skip(0));
        assert(pairs_view(out@) =~= sort_by_peer(pv0.take(0)));
    }
    while rest.len() > 0
        invariant
            0 <= taken <= pv0.len(),
            rest@.len() == pv0.len() - taken,
            pairs_view(rest@) == pv0.skip(taken),
            pairs_view(out@) == sort_by_peer(pv0.take(taken)),
        decreases rest.len(),
    {
        let ghost pre_rest = rest@;
        let e = rest.remove(0);
        proof {
            pre_rest.remove_ensures(0);
            assert(e == pre_rest[0]);
            assert((e.0, e.1@) == pairs_view(pre_rest)[0]);
            assert(pairs_view(pre_rest)[0] == pv0.skip(taken)[0]);
            assert(pairs_view(rest@) =~= pv0.skip(taken + 1)) by {
                assert forall|j: int| 0 <= j < rest@.len() implies pairs_view(rest@)[j] == pv0.skip(
                    taken + 1,
                )[j] by {
                    assert(rest@[j] == pre_rest[j + 1]);
                    assert(pairs_view(pre_rest)[j + 1] == pv0.skip(taken)[j + 1]);
                }
            }
            assert((e.0, e.1@) == pv0[taken]);
        }
        let n = out.len();
        let mut idx: usize = 0;
        while idx < n
            invariant_except_break
                idx <= n == out@.len(),
                forall|j: int| 0 <= j < idx ==> (#[trigger] pairs_view(out@)[j]).0 <= e.0,
            ensures
                idx <= n == out@.len(),
                forall|j: int| 0 <= j < idx ==> (#[trigger] pairs_view(out@)[j]).0 <= e.0,
                idx < n ==> e.0 < pairs_view(out@)[idx as int].0,
            decreases n - idx,
        {
            if e.0 < out[idx].0 {
                proof {
                    assert(pairs_view(out@)[idx as int].0 == out@[idx as int].0);
                }
                break;
            }
            proof {
                assert(pairs_view(out@)[idx as int].0 == out@[idx as int].0);
            }
            idx = idx + 1;
        }
        let ghost prev = pairs_view(out@);
        let ghost ev = (e.0, e.1@);
        proof {
            lemma_sorted_insert_at(prev, ev, idx as int);
        }
        out.insert(idx, e);
        proof {
            taken = taken + 1;
            assert(pairs_view(out@) =~= prev.insert(idx as int, ev));
            assert(pv0.take(taken).drop_last() =~= pv0.take(taken - 1));
            assert(pv0.take(taken).last() == ev);
            assert(pairs_view(out@) =~= sort_by_peer(pv0.take(taken)));
        }
    }
    proof {
        assert(pv0.take(taken) =~= pv0);
    }
    out
}


impl XcmpQueue {
    /// One block's extraction sweep.
    ///
    /// Visits the registry in order under the channel-count budget
    /// `maximum_channels`, purging closed channels, emitting pending signals
    /// ahead of data pages, and decaying fee factors of channels whose
    /// occupancy fell to the threshold. The emitted pages come back sorted
    /// by ascending peer; drained, signal-free, unsuspended records are
    /// pruned, and the survivors are rotated left by the number of emissions
    /// net of pruning so the same neighbours do not starve a peer.
    pub fn take_outbound_messages(
        &mut self,
        transport: &TransportSnapshot,
        maximum_channels: usize,
    ) -> (r: Vec<(u32, Vec<u8>)>)
        requires
            old(self).wf(),
        ensures
            final(self).wf(),
            ({
                let n = old(self).channels@.len() as int;
                let limit = if maximum_channels as int <= n {
                    maximum_channels as int
                } else {
                    n
                };
                let (st, done) = sweep(*old(self), *transport, limit, n);
                let kept = retained(done);
                let pruned = done.len() - kept.len();
                let rot = if st.out.len() >= pruned {
                    st.out.len() - pruned
                } else {
                    0
                };
                &&& final(self).pages@ == st.pages
                &&& final(self).signals@ == st.signals
                &&& final(self).fees@ == st.fees
                &&& pairs_view(r@) == sort_by_peer(st.out)
                &&& final(self).channels@ == rotated_left(kept, rot as int)
            }),
            final(self).config == old(self).config,
            final(self).execution_suspended == old(self).execution_suspended,
            final(self).inbound_suspended@ == old(self).inbound_suspended@,
            final(self).limits == old(self).limits,
    {
        let n = self.channels.len();
        let limit = if maximum_channels <= n {
            maximum_channels
        } else {
            n
        };
        let mut result: Vec<(u32, Vec<u8>)> = Vec::new();
        let mut new_statuses: Vec<OutboundChannelDetails> = Vec::new();
        let mut stopped = false;
        let mut i: usize = 0;
        proof {
            assert(pairs_view(result@) =~= Seq::<(u32, Seq<u8>)>::empty());
            assert(new_statuses@ + old(self).channels@.skip(0) =~= old(self).channels@);
        }
        while i < n
            invariant
                old(self).wf(),
                i <= n == old(self).channels@.len(),
                limit as int == if maximum_channels as int <= n as int {
                    maximum_channels as int
                } else {
                    n as int
                },
                self.channels@ == old(self).channels@,
                *self == (XcmpQueue {
                    pages: self.pages,
                    signals: self.signals,
                    fees: self.fees,
                    ..*old(self)
                }),
                new_statuses@.len() == i,
                result@.len() <= i,
                ({
                    let (st, done) = sweep(*old(self), *transport, limit as int, i as int);
                    &&& st.pages == self.pages@
                    &&& st.signals == self.signals@
                    &&& st.fees == self.fees@
                    &&& st.out == pairs_view(result@)
                    &&& st.stopped == stopped
                    &&& done == new_statuses@
                }),
                stores_consistent(
                    SweepState {
                        pages: self.pages@,
                        signals: self.signals@,
                        fees: self.fees@,
                        out: pairs_view(result@),
                        stopped,
                    },
                    new_statuses@ + old(self).channels@.skip(i as int),
                    old(self).limits,
                ),
                unique_recipients(new_statuses@ + old(self).channels@.skip(i as int)),
            decreases n - i,
        {
            let c = self.channels[i];
            let ghost combined = new_statuses@ + old(self).channels@.skip(i as int);
            let ghost st_pre = SweepState {
                pages: self.pages@,
                signals: self.signals@,
                fees: self.fees@,
                out: pairs_view(result@),
                stopped,
            };
            proof {
                assert(combined[i as int] == c);
                assert forall|x: u16|
                    c.first_index <= x < c.last_index implies self.pages@.contains_key(
                    #[trigger] page_key(c.recipient, x),
                ) by {
                    assert(combined[i as int].first_index <= x < combined[i as int].last_index);
                }
                assert(c.first_index <= c.last_index);
                lemma_step_consistent(
                    st_pre,
                    *transport,
                    limit as int,
                    old(self).limits,
                    combined,
                    i as int,
                );
            }
            let (c2, st2) = self.sweep_channel(transport, limit, &mut result, stopped, c);
            stopped = st2;
            new_statuses.push(c2);
            proof {
                let combined2 = new_statuses@ + old(self).channels@.skip(i as int + 1);
                assert(combined2 =~= combined.update(i as int, c2));
                assert(pairs_view(result@).len() <= st_pre.out.len() + 1);
                assert(result@.len() == pairs_view(result@).len());
            }
            i = i + 1;
        }
        let ghost done = new_statuses@;
        let ghost st_end = SweepState {
            pages: self.pages@,
            signals: self.signals@,
            fees: self.fees@,
            out: pairs_view(result@),
            stopped,
        };
        proof {
            assert(done + old(self).channels@.skip(n as int) =~= done);
        }
        // Prune fully drained, signal-free, unsuspended records.
        let mut kept: Vec<OutboundChannelDetails> = Vec::new();
        let mut j: usize = 0;
        proof {
            assert(kept@ =~= retained(done.take(0)));
        }
        while j < new_statuses.len()
            invariant
                j <= new_statuses@.len(),
                new_statuses@ == done,
                kept@ == retained(done.take(j as int)),
                kept@.len() <= j,
            decreases new_statuses@.len() - j,
        {
            let c = new_statuses[j];
            let ghost prev = kept@;
            if matches!(c.state, OutboundState::Suspended) || c.signals_exist || c.first_index
                < c.last_index {
                kept.push(c);
            }
            proof {
                assert(done.take(j as int + 1).drop_last() =~= done.take(j as int));
                assert(done.take(j as int + 1).last() == c);
                if keeps_record(c) {
                    assert(kept@ =~= retained(done.take(j as int + 1)));
                } else {
                    assert(kept@ =~= prev + Seq::<OutboundChannelDetails>::empty());
                    assert(kept@ =~= retained(done.take(j as int + 1)));
                }
            }
            j = j + 1;
        }
        proof {
            assert(done.take(done.len() as int) =~= done);
        }
        // Rotate the survivors left by the emissions net of pruning.
        let pruned = new_statuses.len() - kept.len();
        let rot = if result.len() >= pruned {
            result.len() - pruned
        } else {
            0
        };
        proof {
            assert(rot <= kept.len());
        }
        let mut rotated: Vec<OutboundChannelDetails> = Vec::new();
        let mut x: usize = rot;
        while x < kept.len()
            invariant
                rot <= x <= kept@.len(),
                rot <= kept@.len(),
                rotated@ == kept@.subrange(rot as int, x as int),
            decreases kept@.len() - x,
        {
            rotated.push(kept[x]);
            proof {
                assert(rotated@ =~= kept@.subrange(rot as int, x as int + 1));
            }
            x = x + 1;
        }
        let mut y: usize = 0;
        while y < rot
            invariant
                y <= rot <= kept@.len(),
                rotated@ == kept@.subrange(rot as int, kept@.len() as int) + kept@.subrange(
                    0,
                    y as int,
                ),
            decreases rot - y,
        {
            rotated.push(kept[y]);
            proof {
                assert(rotated@ =~= kept@.subrange(rot as int, kept@.len() as int)
                    + kept@.subrange(0, y as int + 1));
            }
            y = y + 1;
        }
        proof {
            assert(rotated@ == rotated_left(kept@, rot as int));
        }
        self.channels = rotated;
        proof {
            self.lemma_final_wf(*old(self), st_end, done, kept@, rot as int);
        }
        sort_pairs(result)
    }

    /// After the sweep, pruning and rotation, the engine is well-formed
    /// again.
    proof fn lemma_final_wf(
        self,
        oldq: XcmpQueue,
        st: SweepState,
        done: Seq<OutboundChannelDetails>,
        kept: Seq<OutboundChannelDetails>,
        rot: int,
    )
        requires
            oldq.wf(),
            stores_consistent(st, done, oldq.limits),
            unique_recipients(done),
            done.len() <= oldq.limits.max_active_outbound_channels,
            kept == retained(done),
            0 <= rot <= kept.len(),
            self.channels@ == rotated_left(kept, rot),
            self.pages@ == st.pages,
            self.signals@ == st.signals,
            self.fees@ == st.fees,
            self.config == oldq.config,
            self.execution_suspended == oldq.execution_suspended,
            self.inbound_suspended@ == oldq.inbound_suspended@,
            self.limits == oldq.limits,
        ensures
            self.wf(),
    {
        lemma_retained_props(done);
        let cs = self.channels@;
        assert(cs.len() == kept.len());
        // Every rotated position holds some record of `done`.
        assert forall|j2: int|
            0 <= j2 < cs.len() implies done.contains(#[trigger] cs[j2]) && keeps_record(cs[j2]) by {
            let jk = if j2 < kept.len() - rot {
                j2 + rot
            } else {
                j2 - (kept.len() - rot)
            };
            assert(cs[j2] == kept[jk]);
        }
        assert forall|a: int, b: int|
            0 <= a < b < cs.len() implies (#[trigger] cs[a]).recipient != (
        #[trigger] cs[b]).recipient by {
            let ka = if a < kept.len() - rot {
                a + rot
            } else {
                a - (kept.len() - rot)
            };
            let kb = if b < kept.len() - rot {
                b + rot
            } else {
                b - (kept.len() - rot)
            };
            assert(cs[a] == kept[ka] && cs[b] == kept[kb]);
            assert(ka != kb);
            if ka < kb {
                assert(kept[ka].recipient != kept[kb].recipient);
            } else {
                assert(kept[kb].recipient != kept[ka].recipient);
            }
        }
        assert forall|j: int, x: u16|
            0 <= j < cs.len() && cs[j].first_index <= x < cs[j].last_index implies self.pages@.contains_key(
            #[trigger] page_key(cs[j].recipient, x),
        ) by {
            assert(done.contains(cs[j]));
            let jd = choose|jd: int| 0 <= jd < done.len() && done[jd] == cs[j];
            assert(done[jd].first_index <= x < done[jd].last_index);
            assert(st.pages.contains_key(page_key(done[jd].recipient, x)));
        }
        assert forall|j: int|
            0 <= j < cs.len() && (#[trigger] cs[j]).signals_exist implies self.signals@.contains_key(
            cs[j].recipient,
        ) by {
            assert(done.contains(cs[j]));
            let jd = choose|jd: int| 0 <= jd < done.len() && done[jd] == cs[j];
            assert(st.signals.contains_key(done[jd].recipient));
        }
        assert forall|k: u64| #[trigger] self.pages@.contains_key(k) implies exists|j: int|
            0 <= j < cs.len() && covers(cs[j], k) by {
            let jd = choose|jd: int| 0 <= jd < done.len() && covers(done[jd], k);
            assert(keeps_record(done[jd]));
            assert(kept.contains(done[jd]));
            let jk = choose|jk: int| 0 <= jk < kept.len() && kept[jk] == done[jd];
            let j2 = if jk >= rot {
                jk - rot
            } else {
                jk + (kept.len() - rot)
            };
            assert(cs[j2] == kept[jk]);
            assert(covers(cs[j2], k));
        }
        assert forall|p: u32| #[trigger] self.signals@.contains_key(p) implies exists|j: int|
            0 <= j < cs.len() && (#[trigger] cs[j]).recipient == p && cs[j].signals_exist by {
            let jd = choose|jd: int|
                0 <= jd < done.len() && (#[trigger] done[jd]).recipient == p
                    && done[jd].signals_exist;
            assert(keeps_record(done[jd]));
            assert(kept.contains(done[jd]));
            let jk = choose|jk: int| 0 <= jk < kept.len() && kept[jk] == done[jd];
            let j2 = if jk >= rot {
                jk - rot
            } else {
                jk + (kept.len() - rot)
            };
            assert(cs[j2] == kept[jk]);
            assert(cs[j2].recipient == p && cs[j2].signals_exist);
        }
    }
}


impl XcmpQueue {
    /// Best-effort wipe of every queued data page: the page store is
    /// emptied and every record's page range snaps back to zero. Pending
    /// signals and fee factors stay.
    pub fn clear_messages(&mut self)
        requires
            old(self).wf(),
        ensures
            final(self).wf(),
            final(self).pages@ == Map::<u64, Seq<u8>>::empty(),
            final(self).channels@.len() == old(self).channels@.len(),
            forall|j: int|
                0 <= j < old(self).channels@.len() ==> final(self).channels@[j]
                    == (OutboundChannelDetails {
                    first_index: 0u16,
                    last_index: 0u16,
                    ..old(self).channels@[j]
                }),
            final(self).signals@ == old(self).signals@,
            final(self).fees@ == old(self).fees@,
            final(self).config == old(self).config,
            final(self).execution_suspended == old(self).execution_suspended,
            final(self).inbound_suspended@ == old(self).inbound_suspended@,
            final(self).limits == old(self).limits,
    {
        self.pages.clear();
        let n = self.channels.len();
        let mut j: usize = 0;
        while j < n
            invariant
                j <= n == old(self).channels@.len(),
                self.channels@.len() == n,
                forall|t: int|
                    0 <= t < j ==> self.channels@[t] == (OutboundChannelDetails {
                        first_index: 0u16,
                        last_index: 0u16,
                        ..old(self).channels@[t]
                    }),
                forall|t: int| j <= t < n ==> self.channels@[t] == old(self).channels@[t],
                *self == (XcmpQueue {
                    pages: self.pages,
                    channels: self.channels,
                    ..*old(self)
                }),
                self.pages@ == Map::<u64, Seq<u8>>::empty(),
            decreases n - j,
        {
            let c = self.channels[j];
            self.channels[j] = OutboundChannelDetails { first_index: 0, last_index: 0, ..c };
            j = j + 1;
        }
        proof {
            assert(old(self).wf());
            assert forall|a: int, b: int|
                0 <= a < b < self.channels@.len() implies (#[trigger] self.channels@[a]).recipient
                != (#[trigger] self.channels@[b]).recipient by {
                assert(old(self).channels@[a].recipient != old(self).channels@[b].recipient);
            }
            assert forall|p: u32| #[trigger] self.signals@.contains_key(p) implies exists|t: int|
                0 <= t < self.channels@.len() && (#[trigger] self.channels@[t]).recipient == p
                    && self.channels@[t].signals_exist by {
                let t = choose|t: int|
                    0 <= t < old(self).channels@.len() && (#[trigger] old(
                        self,
                    ).channels@[t]).recipient == p && old(self).channels@[t].signals_exist;
                assert(self.channels@[t].recipient == p && self.channels@[t].signals_exist);
            }
        }
    }
}


/// The inspection entries one stored page contributes: its peer and decoded
/// fragments when it is a payload page, nothing otherwise.
pub open spec fn page_entry(pages: Map<u64, Seq<u8>>, peer: u32, x: u16) -> Seq<
    (u32, Seq<Seq<u8>>),
> {
    if pages[page_key(peer, x)][0] == format_byte(PageFormat::ConcatenatedPayload) {
        seq![(peer, decoded_items(pages[page_key(peer, x)], 1))]
    } else {
        Seq::empty()
    }
}

/// The inspection entries of channel `c`'s pages from index `i` on.
pub open spec fn channel_messages(
    pages: Map<u64, Seq<u8>>,
    c: OutboundChannelDetails,
    i: int,
) -> Seq<(u32, Seq<Seq<u8>>)>
    decreases c.last_index - i,
{
    if i < c.first_index || i >= c.last_index {
        Seq::empty()
    } else {
        page_entry(pages, c.recipient, i as u16) + channel_messages(pages, c, i + 1)
    }
}

/// The inspection entries of the first `j` registry records.
pub open spec fn queued_messages(q: XcmpQueue, j: int) -> Seq<(u32, Seq<Seq<u8>>)>
    decreases j,
{
    if j <= 0 {
        Seq::empty()
    } else {
        queued_messages(q, j - 1) + channel_messages(
            q.pages@,
            q.channels@[j - 1],
            q.channels@[j - 1].first_index as int,
        )
    }
}

impl XcmpQueue {
    /// A decoded view of everything queued: one entry per stored payload
    /// page, in registry order, holding the peer and the page's fragments.
    pub fn get_messages(&self) -> (r: Vec<(u32, Vec<Vec<u8>>)>)
        requires
            self.wf(),
        ensures
            stored_batches_view(r@) == queued_messages(*self, self.channels@.len() as int),
    {
        let mut out: Vec<(u32, Vec<Vec<u8>>)> = Vec::new();
        let n = self.channels.len();
        let mut j: usize = 0;
        proof {
            assert(stored_batches_view(out@) =~= queued_messages(*self, 0));
        }
        while j < n
            invariant
                self.wf(),
                j <= n == self.channels@.len(),
                stored_batches_view(out@) == queued_messages(*self, j as int),
            decreases n - j,
        {
            let c = self.channels[j];
            let mut x = c.first_index;
            proof {
                assert(queued_messages(*self, j as int + 1) =~= stored_batches_view(out@)
                    + channel_messages(self.pages@, c, x as int));
            }
            while x < c.last_index
                invariant
                    self.wf(),
                    j < self.channels@.len(),
                    c == self.channels@[j as int],
                    c.first_index <= x <= c.last_index,
                    queued_messages(*self, j as int + 1) == stored_batches_view(out@)
                        + channel_messages(self.pages@, c, x as int),
                decreases c.last_index - x,
            {
                proof {
                    assert(self.pages@.contains_key(page_key(c.recipient, x)));
                }
                let page = match self.pages.get(c.recipient, x) {
                    Some(p) => p,
                    None => {
                        proof {
                            assert(false);
                        }
                        return out;
                    },
                };
                let ghost prev = stored_batches_view(out@);
                if page[0] == 0 {
                    let items = decode_page_items(page, 1);
                    let ghost iv = batch_view(items@);
                    out.push((c.recipient, items));
                    proof {
                        assert(stored_batches_view(out@) =~= prev.push((c.recipient, iv)));
                        assert(page_entry(self.pages@, c.recipient, x) =~= seq![
                            (c.recipient, iv),
                        ]);
                        assert(stored_batches_view(out@) + channel_messages(
                            self.pages@,
                            c,
                            x as int + 1,
                        ) =~= prev + channel_messages(self.pages@, c, x as int));
                    }
                } else {
                    proof {
                        assert(page_entry(self.pages@, c.recipient, x) =~= Seq::<(
                            u32,
                            Seq<Seq<u8>>,
                        )>::empty());
                        assert(stored_batches_view(out@) + channel_messages(
                            self.pages@,
                            c,
                            x as int + 1,
                        ) =~= prev + channel_messages(self.pages@, c, x as int));
                    }
                }
                x = x + 1;
            }
            j = j + 1;
        }
        out
    }
}

} // verus!
