//! The engine's cross-cutting guarantees, stated and proved over the spec
//! functions that the methods' contracts use.

use vstd::prelude::*;

use crate::channel::ChannelStatus;
use crate::channel::OutboundChannelDetails;
use crate::channel::OutboundState;
use crate::channel::PeerChannel;
use crate::channel::TransportSnapshot;
use crate::fee;
use crate::inbound::resume_transition;
use crate::inbound::seq_has_record;
use crate::inbound::seq_record_index;
use crate::inbound::suspend_transition;
use crate::outbound::estimated_occupancy;
use crate::outbound::fee_threshold;
use crate::outbound::fees_after_write;
use crate::outbound::page_limit_for;
use crate::outbound::has_record;
use crate::outbound::wire_size;
use crate::outbound::write_ok_post;
use crate::scheduler::channel_step;
use crate::scheduler::fees_after_decay;
use crate::scheduler::keeps_record;
use crate::scheduler::sort_by_peer;
use crate::scheduler::sorted_insert;
use crate::scheduler::sweep;
use crate::scheduler::SweepState;
use crate::state::XcmpQueue;
use crate::store::page_key;
use crate::wire::format_byte;
use crate::wire::fragment_encoding;
use crate::wire::lemma_sole_fragment_roundtrip;
use crate::wire::parse_items;
use crate::wire::PageFormat;

verus! {

/// Round trip: a fragment written as the sole occupant of a peer's queue
/// comes back out of the next extraction sweep as one page whose payload
/// decodes to exactly that fragment.
pub proof fn lemma_write_then_extract(
    q: XcmpQueue,
    q2: XcmpQueue,
    t: TransportSnapshot,
    peer: u32,
    f: Seq<u8>,
    cap: PeerChannel,
    count: u32,
    now: u32,
    ever: u32,
)
    requires
        q.wf(),
        q.channels@.len() == 0,
        f.len() < 0x1_0000_0000,
        t.lookup(peer) == Some(cap),
        cap.status == ChannelStatus::Ready(now, ever),
        wire_size(f) < now,
        wire_size(f) <= ever,
        write_ok_post(q, q2, cap, peer, PageFormat::ConcatenatedPayload, f, count),
    ensures
        ({
            let (st, done) = sweep(q2, t, 1, q2.channels@.len() as int);
            &&& st.out.len() == 1
            &&& st.out[0].0 == peer
            &&& st.out[0].1[0] == format_byte(PageFormat::ConcatenatedPayload)
            &&& parse_items(st.out[0].1.skip(1), 0) == Some(seq![f])
            &&& sort_by_peer(st.out) == st.out
        }),
{
    assert(!has_record(q, peer));
    let rec = OutboundChannelDetails {
        recipient: peer,
        state: OutboundState::Open,
        signals_exist: false,
        first_index: 0u16,
        last_index: 1u16,
    };
    assert(q2.channels@ =~= seq![rec]);
    let page = crate::outbound::fresh_page(PageFormat::ConcatenatedPayload, f);
    assert(q2.pages@ == q.pages@.insert(page_key(peer, 0u16), page));
    assert(page.len() == wire_size(f));
    let (st, done) = sweep(q2, t, 1, 1);
    let (st0, done0) = sweep(q2, t, 1, 0);
    assert(st0.pages == q2.pages@ && st0.out =~= Seq::<(u32, Seq<u8>)>::empty());
    assert(q2.channels@[0] == rec);
    assert((st, done[0]) == channel_step(st0, t, 1, q2.limits, rec));
    assert(st0.pages[page_key(peer, 0u16)] == page);
    assert(st.out =~= seq![(peer, page)]);
    assert(page.skip(1) =~= fragment_encoding(f));
    lemma_sole_fragment_roundtrip(f);
    assert(sorted_insert(sort_by_peer(st.out.drop_last()), st.out.last()) =~= st.out);
}

/// Suspend then resume: after a `Suspend` and then a `Resume` control frame
/// from a peer whose channel holds queued data, the record is back in the
/// `Open` state and its page range — and so the pages it covers, which
/// signal processing never touches — is exactly what it was.
pub proof fn lemma_suspend_then_resume(cs: Seq<OutboundChannelDetails>, peer: u32, cap: int)
    requires
        forall|i: int, j: int|
            0 <= i < j < cs.len() ==> (#[trigger] cs[i]).recipient != (
            #[trigger] cs[j]).recipient,
        seq_has_record(cs, peer),
        cs[seq_record_index(cs, peer)].first_index < cs[seq_record_index(cs, peer)].last_index,
    ensures
        ({
            let cs2 = resume_transition(suspend_transition(cs, peer, cap), peer);
            &&& seq_has_record(cs2, peer)
            &&& cs2[seq_record_index(cs2, peer)].state == OutboundState::Open
            &&& cs2[seq_record_index(cs2, peer)].first_index == cs[seq_record_index(
                cs,
                peer,
            )].first_index
            &&& cs2[seq_record_index(cs2, peer)].last_index == cs[seq_record_index(
                cs,
                peer,
            )].last_index
        }),
{
    let i = seq_record_index(cs, peer);
    assert(0 <= i < cs.len() && cs[i].recipient == peer);
    let c = cs[i];
    let cs1 = suspend_transition(cs, peer, cap);
    assert(cs1 == cs.update(i, OutboundChannelDetails { state: OutboundState::Suspended, ..c }));
    assert(seq_has_record(cs1, peer)) by {
        assert(cs1[i].recipient == peer);
    }
    let i1 = seq_record_index(cs1, peer);
    assert(0 <= i1 < cs1.len() && cs1[i1].recipient == peer);
    if i1 != i {
        if i1 < i {
            assert(cs[i1].recipient != cs[i].recipient);
        } else {
            assert(cs[i].recipient != cs[i1].recipient);
        }
        assert(false);
    }
    let c1 = cs1[i];
    assert(c1.first_index < c1.last_index);
    let cs2 = resume_transition(cs1, peer);
    assert(cs2 == cs1.update(i, OutboundChannelDetails { state: OutboundState::Open, ..c1 }));
    assert(seq_has_record(cs2, peer)) by {
        assert(cs2[i].recipient == peer);
    }
    let i2 = seq_record_index(cs2, peer);
    assert(0 <= i2 < cs2.len() && cs2[i2].recipient == peer);
    if i2 != i {
        if i2 < i {
            assert(cs[i2].recipient != cs[i].recipient);
        } else {
            assert(cs[i].recipient != cs[i2].recipient);
        }
        assert(false);
    }
}

/// Escalation never lowers any peer's fee factor, and only the written
/// peer's factor moves.
pub proof fn lemma_write_fee_monotone(
    q: XcmpQueue,
    recipient: u32,
    cap: PeerChannel,
    count: int,
    last_len: int,
)
    ensures
        ({
            let fees2 = fees_after_write(q, recipient, cap, count, last_len);
            let floor = q.limits.min_fee_factor;
            &&& fee::factor_of(fees2, recipient, floor) >= fee::factor_of(
                q.fees@,
                recipient,
                floor,
            )
            &&& forall|p: u32|
                p != recipient ==> fee::factor_of(fees2, p, floor) == fee::factor_of(
                    q.fees@,
                    p,
                    floor,
                )
        }),
{
    let floor = q.limits.min_fee_factor;
    fee::lemma_escalated_monotone(fee::factor_of(q.fees@, recipient, floor));
}

/// For a factor that still has a representable twentieth and room before
/// saturation, a write escalates it strictly when the occupancy estimate
/// passes the threshold, and leaves it untouched otherwise.
pub proof fn lemma_write_fee_strict(
    q: XcmpQueue,
    recipient: u32,
    cap: PeerChannel,
    count: int,
    last_len: int,
)
    requires
        20 <= fee::factor_of(q.fees@, recipient, q.limits.min_fee_factor),
        fee::factor_of(q.fees@, recipient, q.limits.min_fee_factor) + fee::factor_of(
            q.fees@,
            recipient,
            q.limits.min_fee_factor,
        ) / 20 <= u128::MAX,
    ensures
        ({
            let f1 = fee::factor_of(q.fees@, recipient, q.limits.min_fee_factor);
            let f2 = fee::factor_of(
                fees_after_write(q, recipient, cap, count, last_len),
                recipient,
                q.limits.min_fee_factor,
            );
            if estimated_occupancy(count, page_limit_for(cap, q.limits), last_len)
                > fee_threshold(cap) {
                f2 > f1
            } else {
                f2 == f1
            }
        }),
{
    fee::lemma_escalated_strict(fee::factor_of(q.fees@, recipient, q.limits.min_fee_factor));
}

/// Decay never raises a factor and never sinks it under the floor.
pub proof fn lemma_decay_floored(fees: Map<u32, u128>, peer: u32, floor: u128)
    requires
        fee::factor_of(fees, peer, floor) >= floor,
    ensures
        ({
            let f2 = fee::factor_of(fees_after_decay(fees, peer, floor), peer, floor);
            floor <= f2 <= fee::factor_of(fees, peer, floor)
        }),
{
    fee::lemma_decayed_monotone(fee::factor_of(fees, peer, floor));
}

/// A closed channel's visit purges every page and the pending signal of its
/// peer, and leaves a record that the post-sweep pruning drops.
pub proof fn lemma_closed_channel_purged(
    st: SweepState,
    t: TransportSnapshot,
    limit: int,
    limits: crate::state::QueueLimits,
    c: OutboundChannelDetails,
)
    requires
        !st.stopped,
        t.lookup(c.recipient) matches Some(pc) ==> pc.status is Closed,
        forall|k: u64|
            #[trigger] st.pages.contains_key(k) && k / 0x1_0000 == c.recipient
                ==> c.first_index <= k % 0x1_0000 < c.last_index,
        !c.signals_exist ==> !st.signals.contains_key(c.recipient),
    ensures
        ({
            let (st2, c2) = channel_step(st, t, limit, limits, c);
            &&& forall|k: u64| k / 0x1_0000 == c.recipient ==> !st2.pages.contains_key(k)
            &&& !st2.signals.contains_key(c.recipient)
            &&& !keeps_record(c2)
        }),
{
}


/// Whether every registry record of `q` is open, signal-free, holds data,
/// and has a head page the transport will accept right now.
pub open spec fn all_channels_serveable(q: XcmpQueue, t: TransportSnapshot) -> bool {
    forall|j: int|
        0 <= j < q.channels@.len() ==> {
            let c = #[trigger] q.channels@[j];
            let head = q.pages@[page_key(c.recipient, c.first_index)];
            &&& c.state == OutboundState::Open
            &&& !c.signals_exist
            &&& c.first_index < c.last_index
            &&& (t.lookup(c.recipient) matches Some(pc) && (pc.status matches ChannelStatus::Ready(
                now,
                ever,
            ) && head.len() < now && head.len() <= ever))
        }
}

/// Round-robin service: while every channel has an acceptable head page,
/// one sweep emits exactly the head pages of the first `limit` registry
/// records, in registry order, and touches no record behind them. Together
/// with the left rotation the scheduler ends with, the peers served this
/// block stand behind every peer that was not.
#[verifier::rlimit(60)]
pub proof fn lemma_sweep_serves_prefix(q: XcmpQueue, t: TransportSnapshot, limit: int, i: int)
    requires
        q.wf(),
        0 <= limit,
        0 <= i <= q.channels@.len(),
        all_channels_serveable(q, t),
    ensures
        ({
            let (st, done) = sweep(q, t, limit, i);
            let served = if i <= limit {
                i
            } else {
                limit
            };
            &&& st.out.len() == served
            &&& forall|j: int|
                0 <= j < served ==> st.out[j] == (
                    q.channels@[j].recipient,
                    q.pages@[page_key(q.channels@[j].recipient, q.channels@[j].first_index)],
                )
            &&& done.len() == i
            &&& forall|j: int|
                served <= j < i ==> done[j] == q.channels@[j]
            &&& forall|j: int|
                #![trigger q.channels@[j]]
                served <= j < q.channels@.len() ==> {
                    let c = q.channels@[j];
                    &&& st.pages.contains_key(page_key(c.recipient, c.first_index))
                    &&& st.pages[page_key(c.recipient, c.first_index)] == q.pages@[page_key(
                        c.recipient,
                        c.first_index,
                    )]
                }
            &&& st.stopped == (i > limit)
        }),
    decreases i,
{
    if i > 0 {
        lemma_sweep_serves_prefix(q, t, limit, i - 1);
        let (st0, done0) = sweep(q, t, limit, i - 1);
        let c = q.channels@[i - 1];
        let (st, c2) = channel_step(st0, t, limit, q.limits, c);
        let served0 = if i - 1 <= limit {
            i - 1
        } else {
            limit
        };
        assert(all_channels_serveable(q, t));
        assert(c.state == OutboundState::Open && !c.signals_exist && c.first_index
            < c.last_index);
        if i - 1 > limit {
            // Already stopped: the record passes through untouched.
            assert(st == st0 && c2 == c);
        } else if i - 1 == limit {
            // The budget is spent: this visit only notes the stop.
            assert(st0.out.len() == limit && !st0.stopped);
            assert(c2 == c);
        } else {
            // This channel is served: its head page goes out and is popped.
            let key = page_key(c.recipient, c.first_index);
            assert(st0.pages[key] == q.pages@[key]);
            assert(st.out == st0.out.push((c.recipient, q.pages@[key])));
            // Pages of the channels behind are keyed by other peers.
            assert forall|j: int|
                #![trigger q.channels@[j]]
                (if i <= limit {
                    i
                } else {
                    limit
                }) <= j < q.channels@.len() implies {
                let cj = q.channels@[j];
                &&& st.pages.contains_key(page_key(cj.recipient, cj.first_index))
                &&& st.pages[page_key(cj.recipient, cj.first_index)] == q.pages@[page_key(
                    cj.recipient,
                    cj.first_index,
                )]
            } by {
                let cj = q.channels@[j];
                assert(cj.recipient != c.recipient);
                crate::state::lemma_page_key_parts(c.recipient, c.first_index);
                crate::state::lemma_page_key_parts(cj.recipient, cj.first_index);
                assert(page_key(cj.recipient, cj.first_index) != key);
                assert(st0.pages.contains_key(page_key(cj.recipient, cj.first_index)));
            }
        }
    }
}


/// At every emission the fee factor of the served peer decays exactly when
/// the occupancy left behind is at or under the threshold, and no other
/// peer's factor moves.
pub proof fn lemma_emit_decay_iff(
    st: SweepState,
    peer: u32,
    page: Seq<u8>,
    ever: u32,
    threshold: int,
    limits: crate::state::QueueLimits,
    c2: OutboundChannelDetails,
)
    ensures
        ({
            let (st2, _) = crate::scheduler::emit_step(st, peer, page, ever, threshold, limits, c2);
            let remaining = crate::scheduler::sum_page_len(
                st.pages,
                peer,
                c2.first_index as int,
                c2.last_index as int,
            );
            &&& st2.fees == if remaining <= threshold {
                fees_after_decay(st.fees, peer, limits.min_fee_factor)
            } else {
                st.fees
            }
            &&& forall|p: u32|
                p != peer ==> fee::factor_of(st2.fees, p, limits.min_fee_factor)
                    == fee::factor_of(st.fees, p, limits.min_fee_factor)
        }),
{
}

} // verus!
