//! Per-peer outbound channel records and the transport's view of a channel.

use vstd::prelude::*;

verus! {

/// Backpressure state of an outbound channel.
#[derive(Copy, Clone, Debug, PartialEq, Eq, Structural)]
pub enum OutboundState {
    /// Pages may be extracted for this peer.
    Open,
    /// The peer asked us to pause; data pages are withheld, signals are not.
    Suspended,
}

/// The registry record of one peer's outbound channel.
///
/// Data pages for the peer sit at indices `first_index .. last_index` of the
/// page store; the two are equal exactly when no data page is queued.
#[derive(Copy, Clone, Debug, PartialEq, Eq, Structural)]
pub struct OutboundChannelDetails {
    /// The peer this channel is connected with.
    pub recipient: u32,
    /// The backpressure state of the channel.
    pub state: OutboundState,
    /// Whether a control frame waits in the signal store for this peer.
    pub signals_exist: bool,
    /// The index of the oldest queued page.
    pub first_index: u16,
    /// One past the index of the newest queued page.
    pub last_index: u16,
}

impl OutboundChannelDetails {
    /// A fresh, empty record in the `Ok` state.
    pub fn new(recipient: u32) -> (c: OutboundChannelDetails)
        ensures
            c == (OutboundChannelDetails {
                recipient,
                state: OutboundState::Open,
                signals_exist: false,
                first_index: 0u16,
                last_index: 0u16,
            }),
    {
        OutboundChannelDetails {
            recipient,
            state: OutboundState::Open,
            signals_exist: false,
            first_index: 0,
            last_index: 0,
        }
    }

    /// The same record with a pending signal noted.
    pub fn with_signals(self) -> (c: OutboundChannelDetails)
        ensures
            c == (OutboundChannelDetails { signals_exist: true, ..self }),
    {
        OutboundChannelDetails { signals_exist: true, ..self }
    }

    /// The same record in the `Suspended` state.
    pub fn with_suspended_state(self) -> (c: OutboundChannelDetails)
        ensures
            c == (OutboundChannelDetails { state: OutboundState::Suspended, ..self }),
    {
        OutboundChannelDetails { state: OutboundState::Suspended, ..self }
    }

    /// How many data pages are queued for this peer.
    pub open spec fn queued_pages(self) -> int {
        self.last_index - self.first_index
    }
}

/// What the transport reports about a channel when the scheduler visits it.
#[derive(Copy, Clone, Debug, PartialEq, Eq, Structural)]
pub enum ChannelStatus {
    /// The channel no longer exists; queued pages are to be discarded.
    Closed,
    /// The channel can accept nothing this block.
    Full,
    /// The channel accepts a page; the first field is the size limit right
    /// now, the second the largest size it ever accepted.
    Ready(u32, u32),
}

/// The transport's current conditions for one peer's channel.
#[derive(Copy, Clone, Debug, PartialEq, Eq, Structural)]
pub struct PeerChannel {
    /// Whether the channel can accept a page this block, and how large.
    pub status: ChannelStatus,
    /// The largest page the channel accepts.
    pub max_message_size: u32,
    /// The total number of queued bytes the channel is meant to hold at most.
    pub max_total_size: u32,
}

/// Looks a peer up in a snapshot's entry list, first match winning.
spec fn lookup_peer(s: Seq<(u32, PeerChannel)>, peer: u32) -> Option<PeerChannel>
    decreases s.len(),
{
    if s.len() == 0 {
        None
    } else if s[0].0 == peer {
        Some(s[0].1)
    } else {
        lookup_peer(s.drop_first(), peer)
    }
}

/// A point-in-time picture of every channel the transport reports.
///
/// The scheduler and the page writer consult this instead of calling into
/// the transport themselves; the surrounding host queries the transport once
/// per block and hands the result in.
pub struct TransportSnapshot {
    entries: Vec<(u32, PeerChannel)>,
}

impl TransportSnapshot {
    /// What the snapshot holds for `peer`.
    pub closed spec fn lookup(self, peer: u32) -> Option<PeerChannel> {
        lookup_peer(self.entries@, peer)
    }

    /// An empty snapshot: the transport reports no channel at all.
    pub fn new() -> (t: TransportSnapshot)
        ensures
            forall|p: u32| t.lookup(p) is None,
    {
        TransportSnapshot { entries: Vec::new() }
    }

    /// Records the transport's conditions for `peer`, shadowing an earlier
    /// entry for the same peer.
    pub fn set_channel(&mut self, peer: u32, channel: PeerChannel)
        ensures
            final(self).lookup(peer) == Some(channel),
            forall|p: u32| p != peer ==> final(self).lookup(p) == old(self).lookup(p),
    {
        self.entries.insert(0, (peer, channel));
        proof {
            assert(self.entries@.drop_first() =~= old(self).entries@);
        }
    }

    /// Looks `peer` up.
    pub fn get(&self, peer: u32) -> (r: Option<PeerChannel>)
        ensures
            r == self.lookup(peer),
    {
        let n = self.entries.len();
        let mut i: usize = 0;
        proof {
            assert(self.entries@.subrange(0, n as int) =~= self.entries@);
        }
        while i < n
            invariant
                i <= n == self.entries.len(),
                lookup_peer(self.entries@, peer) == lookup_peer(
                    self.entries@.subrange(i as int, n as int),
                    peer,
                ),
            decreases n - i,
        {
            let e = self.entries[i];
            proof {
                let tail = self.entries@.subrange(i as int, n as int);
                assert(tail[0] == self.entries@[i as int]);
                assert(tail.drop_first() =~= self.entries@.subrange(i as int + 1, n as int));
            }
            if e.0 == peer {
                return Some(e.1);
            }
            i = i + 1;
        }
        proof {
            assert(self.entries@.subrange(n as int, n as int) =~= Seq::<(u32,
            PeerChannel)>::empty());
        }
        None
    }
}

} // verus!
