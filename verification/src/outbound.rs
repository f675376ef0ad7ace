//! The outbound page writer and the signal path.

use vstd::prelude::*;

use crate::channel::OutboundChannelDetails;
use crate::channel::OutboundState;
use crate::channel::PeerChannel;
use crate::channel::TransportSnapshot;
use crate::config::MessageSendError;
use crate::config::QueueError;
use crate::fee;
use crate::state::lemma_page_key_parts;
use crate::state::QueueLimits;
use crate::state::XcmpQueue;
use crate::store::page_key;
use crate::wire;
use crate::wire::format_byte;
use crate::wire::fragment_encoding;
use crate::wire::signal_byte;
use crate::wire::ChannelSignal;
use crate::wire::PageFormat;

verus! {

/// Fees start escalating once a channel's estimated occupancy passes
/// `max_total_size / THRESHOLD_FACTOR`.
pub const THRESHOLD_FACTOR: u32 = 2;

/// The page size limit towards a peer: the smaller of what the transport
/// reports and the engine's own page size cap.
pub open spec fn page_limit_for(cap: PeerChannel, limits: QueueLimits) -> int {
    if cap.max_message_size <= limits.max_page_size {
        cap.max_message_size as int
    } else {
        limits.max_page_size as int
    }
}

/// How many page bytes fragment `frag` costs when it starts a fresh page:
/// its wire encoding plus the format header.
pub open spec fn wire_size(frag: Seq<u8>) -> int {
    fragment_encoding(frag).len() + crate::wire::FORMAT_HEADER_SIZE as int
}

/// A fresh page holding exactly one fragment.
pub open spec fn fresh_page(format: PageFormat, frag: Seq<u8>) -> Seq<u8> {
    seq![format_byte(format)] + fragment_encoding(frag)
}

/// The single-page control frame buffer the signal path stores.
pub open spec fn signal_page(signal: ChannelSignal) -> Seq<u8> {
    seq![format_byte(PageFormat::Signals), signal_byte(signal)]
}

/// The occupancy byte count the fee controller goes by: all pages but the
/// last assumed full, deliberately overestimating.
pub open spec fn estimated_occupancy(count: int, limit: int, last_len: int) -> int {
    (count - 1) * limit + last_len
}

/// The occupancy level above which a write escalates the fee factor.
pub open spec fn fee_threshold(cap: PeerChannel) -> int {
    cap.max_total_size as int / THRESHOLD_FACTOR as int
}

/// Whether the registry holds a record for `recipient`.
pub open spec fn has_record(q: XcmpQueue, recipient: u32) -> bool {
    exists|i: int|
        0 <= i < q.channels@.len() && (#[trigger] q.channels@[i]).recipient == recipient
}

/// The registry index of `recipient`'s record.
pub open spec fn record_index(q: XcmpQueue, recipient: u32) -> int {
    choose|i: int|
        0 <= i < q.channels@.len() && (#[trigger] q.channels@[i]).recipient == recipient
}

/// The fee store after a write that left `recipient` with `count` pages, the
/// last `last_len` bytes long: escalated exactly when the estimate passes
/// the threshold.
pub open spec fn fees_after_write(
    oldq: XcmpQueue,
    recipient: u32,
    cap: PeerChannel,
    count: int,
    last_len: int,
) -> Map<u32, u128> {
    if estimated_occupancy(count, page_limit_for(cap, oldq.limits), last_len) > fee_threshold(
        cap,
    ) {
        oldq.fees@.insert(
            recipient,
            fee::escalated(fee::factor_of(oldq.fees@, recipient, oldq.limits.min_fee_factor)),
        )
    } else {
        oldq.fees@
    }
}

/// What a write leaves untouched: everything but the registry, the page
/// store and the fee store.
pub open spec fn unchanged_but_write(oldq: XcmpQueue, newq: XcmpQueue) -> bool {
    &&& newq.config == oldq.config
    &&& newq.execution_suspended == oldq.execution_suspended
    &&& newq.signals@ == oldq.signals@
    &&& newq.inbound_suspended@ == oldq.inbound_suspended@
    &&& newq.limits == oldq.limits
}

/// Whether a successful write of `frag` must open a fresh page: there is no
/// active page, or the active page cannot take the fragment.
pub open spec fn needs_fresh_page(
    oldq: XcmpQueue,
    cap: PeerChannel,
    recipient: u32,
    format: PageFormat,
    frag: Seq<u8>,
) -> bool {
    let c = oldq.channels@[record_index(oldq, recipient)];
    let tailkey = page_key(recipient, (c.last_index - 1) as u16);
    ||| c.last_index == c.first_index
    ||| (oldq.pages@[tailkey][0] == format_byte(format) && oldq.pages@[tailkey].len()
        + fragment_encoding(frag).len() > page_limit_for(cap, oldq.limits))
}

/// Whether a write fails because the record's page index space is spent.
pub open spec fn write_is_fatal(
    oldq: XcmpQueue,
    cap: PeerChannel,
    recipient: u32,
    format: PageFormat,
    frag: Seq<u8>,
) -> bool {
    &&& wire_size(frag) <= page_limit_for(cap, oldq.limits)
    &&& has_record(oldq, recipient)
    &&& needs_fresh_page(oldq, cap, recipient, format, frag)
    &&& oldq.channels@[record_index(oldq, recipient)].last_index == 0xFFFF
}

/// The state transition of a successful write.
pub open spec fn write_ok_post(
    oldq: XcmpQueue,
    newq: XcmpQueue,
    cap: PeerChannel,
    recipient: u32,
    format: PageFormat,
    frag: Seq<u8>,
    count: u32,
) -> bool {
    let enc = fragment_encoding(frag);
    let lim = page_limit_for(cap, oldq.limits);
    if has_record(oldq, recipient) {
        let i = record_index(oldq, recipient);
        let c = oldq.channels@[i];
        let active = c.last_index > c.first_index;
        let tailkey = page_key(recipient, (c.last_index - 1) as u16);
        if active && oldq.pages@[tailkey][0] != format_byte(format) {
            // A format mismatch on the active page: the inconsistency is
            // logged by the host and the message is dropped, not propagated.
            newq == oldq && count == c.queued_pages()
        } else if active && oldq.pages@[tailkey].len() + enc.len() <= lim {
            &&& count == c.queued_pages()
            &&& newq.channels@ == oldq.channels@
            &&& newq.pages@ == oldq.pages@.insert(tailkey, oldq.pages@[tailkey] + enc)
            &&& newq.fees@ == fees_after_write(
                oldq,
                recipient,
                cap,
                count as int,
                oldq.pages@[tailkey].len() + enc.len() as int,
            )
            &&& unchanged_but_write(oldq, newq)
        } else {
            &&& count == c.queued_pages() + 1
            &&& newq.channels@ == oldq.channels@.update(
                i,
                OutboundChannelDetails { last_index: (c.last_index + 1) as u16, ..c },
            )
            &&& newq.pages@ == oldq.pages@.insert(
                page_key(recipient, c.last_index),
                fresh_page(format, frag),
            )
            &&& newq.fees@ == fees_after_write(
                oldq,
                recipient,
                cap,
                count as int,
                fresh_page(format, frag).len() as int,
            )
            &&& unchanged_but_write(oldq, newq)
        }
    } else {
        &&& count == 1
        &&& newq.channels@ == oldq.channels@.push(
            OutboundChannelDetails {
                recipient,
                state: OutboundState::Open,
                signals_exist: false,
                first_index: 0u16,
                last_index: 1u16,
            },
        )
        &&& newq.pages@ == oldq.pages@.insert(page_key(recipient, 0u16), fresh_page(format, frag))
        &&& newq.fees@ == fees_after_write(oldq, recipient, cap, 1, fresh_page(format, frag).len() as int)
        &&& unchanged_but_write(oldq, newq)
    }
}

/// Copies a byte buffer.
pub(crate) fn copy_bytes(src: &Vec<u8>) -> (r: Vec<u8>)
    ensures
        r@ == src@,
{
    let mut r: Vec<u8> = Vec::new();
    let mut i: usize = 0;
    while i < src.len()
        invariant
            i <= src.len(),
            r@ == src@.subrange(0, i as int),
        decreases src.len() - i,
    {
        r.push(src[i]);
        i = i + 1;
        assert(r@ =~= src@.subrange(0, i as int));
    }
    assert(src@.subrange(0, src.len() as int) =~= src@);
    r
}

impl XcmpQueue {
    /// How many page bytes `fragment` needs on the wire, header included.
    fn wire_size_of(fragment: &Vec<u8>) -> (r: u64)
        requires
            fragment.len() < 0x1_0000_0000,
        ensures
            r == wire_size(fragment@),
    {
        let flen = fragment.len();
        let clen: u64 = if flen < 64 {
            1
        } else if flen < 16384 {
            2
        } else if flen < 0x4000_0000 {
            4
        } else {
            5
        };
        clen + flen as u64 + 1
    }

    /// Appends `fragment` to the page queue towards `recipient`.
    ///
    /// The fragment lands on the active page when its format matches and it
    /// still fits; otherwise on a fresh page. A registry record is created
    /// lazily. The write escalates `recipient`'s fee factor when the
    /// conservative occupancy estimate passes the threshold. On success the
    /// peer's queued page count is returned.
    pub fn send_fragment(
        &mut self,
        transport: &TransportSnapshot,
        recipient: u32,
        format: PageFormat,
        fragment: &Vec<u8>,
    ) -> (r: Result<u32, MessageSendError>)
        requires
            old(self).wf(),
            fragment.len() < 0x1_0000_0000,
        ensures
            final(self).wf(),
            r is Err ==> *final(self) == *old(self),
            (r == Result::<u32, MessageSendError>::Err(MessageSendError::NoChannel)) <==> transport.lookup(
                recipient,
            ) is None,
            transport.lookup(recipient) matches Some(cap) ==> {
                let lim = page_limit_for(cap, old(self).limits);
                &&& ((r == Result::<u32, MessageSendError>::Err(MessageSendError::TooBig)) <==> wire_size(
                    fragment@,
                ) > lim)
                &&& ((r == Result::<u32, MessageSendError>::Err(
                    MessageSendError::TooManyChannels,
                )) <==> (wire_size(fragment@) <= lim && !has_record(*old(self), recipient) && old(
                    self,
                ).channels@.len() >= old(self).limits.max_active_outbound_channels))
                &&& ((r == Result::<u32, MessageSendError>::Err(MessageSendError::Fatal)) <==> write_is_fatal(
                    *old(self),
                    cap,
                    recipient,
                    format,
                    fragment@,
                ))
                &&& (r matches Ok(count) ==> write_ok_post(
                    *old(self),
                    *final(self),
                    cap,
                    recipient,
                    format,
                    fragment@,
                    count,
                ))
            },
    {
        let cap = match transport.get(recipient) {
            Some(c) => c,
            None => {
                return Err(MessageSendError::NoChannel);
            },
        };
        let max_msg: u64 = if cap.max_message_size <= self.limits.max_page_size {
            cap.max_message_size as u64
        } else {
            self.limits.max_page_size as u64
        };
        let need = Self::wire_size_of(fragment);
        if need > max_msg {
            return Err(MessageSendError::TooBig);
        }
        match self.find_channel(recipient) {
            Some(i) => {
                proof {
                    assert(has_record(*self, recipient));
                    let j = record_index(*self, recipient);
                    if i as int != j {
                        assert(self.channels@[i as int].recipient == self.channels@[j].recipient);
                        assert(false);
                    }
                }
                let c = self.channels[i];
                if c.last_index > c.first_index {
                    let tail_index = c.last_index - 1;
                    proof {
                        assert(self.pages@.contains_key(page_key(recipient, tail_index)));
                    }
                    let page = match self.pages.get(recipient, tail_index) {
                        Some(p) => p,
                        None => {
                            proof {
                                assert(false);
                            }
                            return Err(MessageSendError::Fatal);
                        },
                    };
                    if page[0] != wire::encode_format(format) {
                        return Ok((c.last_index - c.first_index) as u32);
                    }
                    if page.len() as u64 + need - 1 <= max_msg {
                        let mut newpage = copy_bytes(page);
                        proof {
                            assert(newpage@.len() + 5 + fragment@.len() <= usize::MAX);
                        }
                        wire::encode_fragment_into(&mut newpage, fragment);
                        let last_len = newpage.len() as u64;
                        self.pages.insert(recipient, tail_index, newpage);
                        let count = (c.last_index - c.first_index) as u32;
                        proof {
                            self.lemma_write_wf_after_replace(*old(self), recipient, tail_index);
                        }
                        self.maybe_escalate(recipient, cap, max_msg, count, last_len);
                        return Ok(count);
                    }
                }
                // A fresh page is needed for this record.
                if c.last_index == 0xFFFF {
                    return Err(MessageSendError::Fatal);
                }
                let mut newpage: Vec<u8> = Vec::new();
                newpage.push(wire::encode_format(format));
                wire::encode_fragment_into(&mut newpage, fragment);
                let last_len = newpage.len() as u64;
                proof {
                    assert(newpage@ =~= fresh_page(format, fragment@));
                }
                self.pages.insert(recipient, c.last_index, newpage);
                self.channels[i] = OutboundChannelDetails {
                    last_index: c.last_index + 1,
                    ..c
                };
                let count = (c.last_index + 1 - c.first_index) as u32;
                proof {
                    self.lemma_write_wf_after_extend(*old(self), recipient, i as int);
                }
                self.maybe_escalate(recipient, cap, max_msg, count, last_len);
                Ok(count)
            },
            None => {
                if self.channels.len() >= self.limits.max_active_outbound_channels as usize {
                    return Err(MessageSendError::TooManyChannels);
                }
                let mut newpage: Vec<u8> = Vec::new();
                newpage.push(wire::encode_format(format));
                wire::encode_fragment_into(&mut newpage, fragment);
                let last_len = newpage.len() as u64;
                proof {
                    assert(newpage@ =~= fresh_page(format, fragment@));
                }
                self.pages.insert(recipient, 0, newpage);
                self.channels.push(
                    OutboundChannelDetails {
                        recipient,
                        state: OutboundState::Open,
                        signals_exist: false,
                        first_index: 0,
                        last_index: 1,
                    },
                );
                proof {
                    self.lemma_write_wf_after_create(*old(self), recipient);
                }
                self.maybe_escalate(recipient, cap, max_msg, 1, last_len);
                Ok(1)
            },
        }
    }

    /// Escalates `recipient`'s fee factor when the conservative occupancy
    /// estimate (`count` pages, all but the last assumed full) exceeds the
    /// threshold.
    fn maybe_escalate(
        &mut self,
        recipient: u32,
        cap: PeerChannel,
        max_msg: u64,
        count: u32,
        last_len: u64,
    )
        requires
            old(self).wf(),
            1 <= count <= 0x1_0000,
            max_msg == page_limit_for(cap, old(self).limits),
            last_len <= max_msg <= u32::MAX,
        ensures
            final(self).wf(),
            final(self).fees@ == fees_after_write(
                *old(self),
                recipient,
                cap,
                count as int,
                last_len as int,
            ),
            *final(self) == (XcmpQueue { fees: final(self).fees, ..*old(self) }),
    {
        proof {
            assert((count - 1) as int * max_msg as int <= 0x1_0000 * 0xFFFF_FFFF)
                by (nonlinear_arith)
                requires
                    0 <= (count - 1) as int <= 0x1_0000,
                    0 <= max_msg as int <= 0xFFFF_FFFF,
            ;
        }
        let total: u64 = (count - 1) as u64 * max_msg + last_len;
        let threshold: u64 = (cap.max_total_size / THRESHOLD_FACTOR) as u64;
        if total > threshold {
            self.increase_fee_factor(recipient);
        }
    }

    /// Sets `signal_pending` on `dest`'s record (creating the record when
    /// absent) and stores a fresh one-page control frame for `dest`,
    /// overwriting any earlier pending signal.
    pub fn send_signal(&mut self, dest: u32, signal: ChannelSignal) -> (r: Result<(), QueueError>)
        requires
            old(self).wf(),
        ensures
            final(self).wf(),
            r is Err ==> *final(self) == *old(self),
            r is Err <==> (!has_record(*old(self), dest) && old(self).channels@.len() >= old(
                self,
            ).limits.max_active_outbound_channels),
            r is Err ==> r == Result::<(), QueueError>::Err(
                QueueError::TooManyActiveOutboundChannels,
            ),
            r is Ok ==> {
                &&& final(self).signals@ == old(self).signals@.insert(dest, signal_page(signal))
                &&& (if has_record(*old(self), dest) {
                    final(self).channels@ == old(self).channels@.update(
                        record_index(*old(self), dest),
                        OutboundChannelDetails {
                            signals_exist: true,
                            ..old(self).channels@[record_index(*old(self), dest)]
                        },
                    )
                } else {
                    final(self).channels@ == old(self).channels@.push(
                        OutboundChannelDetails {
                            recipient: dest,
                            state: OutboundState::Open,
                            signals_exist: true,
                            first_index: 0u16,
                            last_index: 0u16,
                        },
                    )
                })
                &&& final(self).pages@ == old(self).pages@
                &&& final(self).fees@ == old(self).fees@
                &&& final(self).config == old(self).config
                &&& final(self).execution_suspended == old(self).execution_suspended
                &&& final(self).inbound_suspended@ == old(self).inbound_suspended@
                &&& final(self).limits == old(self).limits
            },
    {
        match self.find_channel(dest) {
            Some(i) => {
                proof {
                    assert(has_record(*self, dest));
                    let j = record_index(*self, dest);
                    if i as int != j {
                        assert(self.channels@[i as int].recipient == self.channels@[j].recipient);
                        assert(false);
                    }
                }
                let c = self.channels[i];
                self.channels[i] = OutboundChannelDetails { signals_exist: true, ..c };
            },
            None => {
                if self.channels.len() >= self.limits.max_active_outbound_channels as usize {
                    return Err(QueueError::TooManyActiveOutboundChannels);
                }
                self.channels.push(
                    OutboundChannelDetails {
                        recipient: dest,
                        state: OutboundState::Open,
                        signals_exist: true,
                        first_index: 0,
                        last_index: 0,
                    },
                );
            },
        }
        let mut page: Vec<u8> = Vec::new();
        page.push(wire::encode_format(PageFormat::Signals));
        page.push(wire::encode_signal(signal));
        proof {
            assert(page@ =~= signal_page(signal));
        }
        self.signals.insert(dest, page);
        proof {
            self.lemma_signal_wf(*old(self), dest);
        }
        Ok(())
    }

    /// After replacing the bytes of an already-stored page (the append
    /// path), the structural invariants still hold.
    proof fn lemma_write_wf_after_replace(self, oldq: XcmpQueue, recipient: u32, index: u16)
        requires
            oldq.wf(),
            oldq.pages@.contains_key(page_key(recipient, index)),
            self.pages@ == oldq.pages@.insert(page_key(recipient, index), self.pages@[page_key(
                recipient,
                index,
            )]),
            1 <= self.pages@[page_key(recipient, index)].len() <= self.limits.max_page_size,
            self == (XcmpQueue { pages: self.pages, ..oldq }),
        ensures
            self.wf(),
    {
        assert(self.pages@.dom() =~= oldq.pages@.dom());
        assert forall|k: u64| #[trigger] self.pages@.contains_key(k) implies exists|i: int|
            0 <= i < self.channels@.len() && crate::state::covers(self.channels@[i], k) by {
            assert(oldq.pages@.contains_key(k));
            let j = choose|j: int|
                0 <= j < oldq.channels@.len() && crate::state::covers(oldq.channels@[j], k);
            assert(crate::state::covers(self.channels@[j], k));
        }
        assert forall|j: int, x: u16|
            0 <= j < self.channels@.len() && self.channels@[j].first_index <= x
                < self.channels@[j].last_index implies self.pages@.contains_key(
            #[trigger] page_key(self.channels@[j].recipient, x),
        ) by {
            assert(oldq.pages@.contains_key(page_key(oldq.channels@[j].recipient, x)));
        }
    }

    /// After storing a fresh page at `last_index` and advancing the record's
    /// `last_index`, the structural invariants still hold.
    proof fn lemma_write_wf_after_extend(self, oldq: XcmpQueue, recipient: u32, i: int)
        requires
            oldq.wf(),
            0 <= i < oldq.channels@.len(),
            oldq.channels@[i].recipient == recipient,
            oldq.channels@[i].last_index < 0xFFFF,
            self.channels@ == oldq.channels@.update(
                i,
                OutboundChannelDetails {
                    last_index: (oldq.channels@[i].last_index + 1) as u16,
                    ..oldq.channels@[i]
                },
            ),
            self.pages@ == oldq.pages@.insert(
                page_key(recipient, oldq.channels@[i].last_index),
                self.pages@[page_key(recipient, oldq.channels@[i].last_index)],
            ),
            1 <= self.pages@[page_key(recipient, oldq.channels@[i].last_index)].len()
                <= self.limits.max_page_size,
            self == (XcmpQueue { pages: self.pages, channels: self.channels, ..oldq }),
        ensures
            self.wf(),
    {
        let c = oldq.channels@[i];
        let newkey = page_key(recipient, c.last_index);
        lemma_page_key_parts(recipient, c.last_index);
        assert forall|j: int, x: u16|
            0 <= j < self.channels@.len() && self.channels@[j].first_index <= x
                < self.channels@[j].last_index implies self.pages@.contains_key(
            #[trigger] page_key(self.channels@[j].recipient, x),
        ) by {
            if j == i {
                if x < c.last_index {
                    assert(oldq.pages@.contains_key(page_key(recipient, x)));
                } else {
                    assert(page_key(self.channels@[j].recipient, x) == newkey);
                }
            } else {
                assert(oldq.pages@.contains_key(page_key(oldq.channels@[j].recipient, x)));
            }
        }
        assert forall|k: u64| #[trigger] self.pages@.contains_key(k) implies exists|j: int|
            0 <= j < self.channels@.len() && crate::state::covers(self.channels@[j], k) by {
            if k == newkey {
                assert(crate::state::covers(self.channels@[i], k));
            } else {
                assert(oldq.pages@.contains_key(k));
                let j = choose|j: int|
                    0 <= j < oldq.channels@.len() && crate::state::covers(oldq.channels@[j], k);
                assert(crate::state::covers(self.channels@[j], k));
            }
        }
        assert forall|p: u32| #[trigger] self.signals@.contains_key(p) implies exists|j: int|
            0 <= j < self.channels@.len() && (#[trigger] self.channels@[j]).recipient == p
                && self.channels@[j].signals_exist by {
            let j = choose|j: int|
                0 <= j < oldq.channels@.len() && (#[trigger] oldq.channels@[j]).recipient == p
                    && oldq.channels@[j].signals_exist;
            assert(self.channels@[j].recipient == p && self.channels@[j].signals_exist);
        }
    }

    /// After pushing a fresh one-page record for a peer the registry did not
    /// know, the structural invariants still hold.
    proof fn lemma_write_wf_after_create(self, oldq: XcmpQueue, recipient: u32)
        requires
            oldq.wf(),
            !has_record(oldq, recipient),
            oldq.channels@.len() < oldq.limits.max_active_outbound_channels,
            self.channels@ == oldq.channels@.push(
                OutboundChannelDetails {
                    recipient,
                    state: OutboundState::Open,
                    signals_exist: false,
                    first_index: 0u16,
                    last_index: 1u16,
                },
            ),
            self.pages@ == oldq.pages@.insert(page_key(recipient, 0u16), self.pages@[page_key(
                recipient,
                0u16,
            )]),
            1 <= self.pages@[page_key(recipient, 0u16)].len() <= self.limits.max_page_size,
            self == (XcmpQueue { pages: self.pages, channels: self.channels, ..oldq }),
        ensures
            self.wf(),
    {
        let n = oldq.channels@.len() as int;
        let newkey = page_key(recipient, 0u16);
        lemma_page_key_parts(recipient, 0u16);
        assert forall|i: int, j: int|
            0 <= i < j < self.channels@.len() implies (#[trigger] self.channels@[i]).recipient
            != (#[trigger] self.channels@[j]).recipient by {
            if j == n {
                assert(self.channels@[i] == oldq.channels@[i]);
            }
        }
        assert forall|j: int, x: u16|
            0 <= j < self.channels@.len() && self.channels@[j].first_index <= x
                < self.channels@[j].last_index implies self.pages@.contains_key(
            #[trigger] page_key(self.channels@[j].recipient, x),
        ) by {
            if j == n {
                assert(x == 0);
                assert(page_key(self.channels@[j].recipient, x) == newkey);
            } else {
                assert(oldq.pages@.contains_key(page_key(oldq.channels@[j].recipient, x)));
            }
        }
        assert forall|k: u64| #[trigger] self.pages@.contains_key(k) implies exists|j: int|
            0 <= j < self.channels@.len() && crate::state::covers(self.channels@[j], k) by {
            if k == newkey {
                assert(crate::state::covers(self.channels@[n], k));
            } else {
                assert(oldq.pages@.contains_key(k));
                let j = choose|j: int|
                    0 <= j < oldq.channels@.len() && crate::state::covers(oldq.channels@[j], k);
                assert(crate::state::covers(self.channels@[j], k));
            }
        }
        assert forall|p: u32| #[trigger] self.signals@.contains_key(p) implies exists|j: int|
            0 <= j < self.channels@.len() && (#[trigger] self.channels@[j]).recipient == p
                && self.channels@[j].signals_exist by {
            let j = choose|j: int|
                0 <= j < oldq.channels@.len() && (#[trigger] oldq.channels@[j]).recipient == p
                    && oldq.channels@[j].signals_exist;
            assert(self.channels@[j].recipient == p && self.channels@[j].signals_exist);
        }
    }

    /// After the signal path ran, the structural invariants still hold.
    proof fn lemma_signal_wf(self, oldq: XcmpQueue, dest: u32)
        requires
            oldq.wf(),
            self.signals@ == oldq.signals@.insert(dest, self.signals@[dest]),
            1 <= self.signals@[dest].len() <= self.limits.max_page_size,
            if has_record(oldq, dest) {
                self.channels@ == oldq.channels@.update(
                    record_index(oldq, dest),
                    OutboundChannelDetails {
                        signals_exist: true,
                        ..oldq.channels@[record_index(oldq, dest)]
                    },
                )
            } else {
                oldq.channels@.len() < oldq.limits.max_active_outbound_channels
                    && self.channels@ == oldq.channels@.push(
                    OutboundChannelDetails {
                        recipient: dest,
                        state: OutboundState::Open,
                        signals_exist: true,
                        first_index: 0u16,
                        last_index: 0u16,
                    },
                )
            },
            self == (XcmpQueue { signals: self.signals, channels: self.channels, ..oldq }),
        ensures
            self.wf(),
    {
        let n = oldq.channels@.len() as int;
        if has_record(oldq, dest) {
            let i = record_index(oldq, dest);
            assert(0 <= i < n && oldq.channels@[i].recipient == dest);
            assert forall|j: int, x: u16|
                0 <= j < self.channels@.len() && self.channels@[j].first_index <= x
                    < self.channels@[j].last_index implies self.pages@.contains_key(
                #[trigger] page_key(self.channels@[j].recipient, x),
            ) by {
                assert(oldq.pages@.contains_key(page_key(oldq.channels@[j].recipient, x)));
            }
            assert forall|k: u64| #[trigger] self.pages@.contains_key(k) implies exists|j: int|
                0 <= j < self.channels@.len() && crate::state::covers(self.channels@[j], k) by {
                let j = choose|j: int|
                    0 <= j < oldq.channels@.len() && crate::state::covers(oldq.channels@[j], k);
                assert(crate::state::covers(self.channels@[j], k));
            }
            assert forall|p: u32| #[trigger] self.signals@.contains_key(p) implies exists|j: int|
                0 <= j < self.channels@.len() && (#[trigger] self.channels@[j]).recipient == p
                    && self.channels@[j].signals_exist by {
                if p == dest {
                    assert(self.channels@[i].recipient == p && self.channels@[i].signals_exist);
                } else {
                    let j = choose|j: int|
                        0 <= j < oldq.channels@.len() && (#[trigger] oldq.channels@[j]).recipient
                            == p && oldq.channels@[j].signals_exist;
                    assert(self.channels@[j].recipient == p && self.channels@[j].signals_exist);
                }
            }
        } else {
            assert forall|i: int, j: int|
                0 <= i < j < self.channels@.len() implies (#[trigger] self.channels@[i]).recipient
                != (#[trigger] self.channels@[j]).recipient by {
                if j == n {
                    assert(self.channels@[i] == oldq.channels@[i]);
                }
            }
            assert forall|j: int, x: u16|
                0 <= j < self.channels@.len() && self.channels@[j].first_index <= x
                    < self.channels@[j].last_index implies self.pages@.contains_key(
                #[trigger] page_key(self.channels@[j].recipient, x),
            ) by {
                assert(j != n);
                assert(oldq.pages@.contains_key(page_key(oldq.channels@[j].recipient, x)));
            }
            assert forall|k: u64| #[trigger] self.pages@.contains_key(k) implies exists|j: int|
                0 <= j < self.channels@.len() && crate::state::covers(self.channels@[j], k) by {
                let j = choose|j: int|
                    0 <= j < oldq.channels@.len() && crate::state::covers(oldq.channels@[j], k);
                assert(crate::state::covers(self.channels@[j], k));
            }
            assert forall|p: u32| #[trigger] self.signals@.contains_key(p) implies exists|j: int|
                0 <= j < self.channels@.len() && (#[trigger] self.channels@[j]).recipient == p
                    && self.channels@[j].signals_exist by {
                if p == dest {
                    assert(self.channels@[n].recipient == p && self.channels@[n].signals_exist);
                } else {
                    let j = choose|j: int|
                        0 <= j < oldq.channels@.len() && (#[trigger] oldq.channels@[j]).recipient
                            == p && oldq.channels@[j].signals_exist;
                    assert(self.channels@[j].recipient == p && self.channels@[j].signals_exist);
                }
            }
        }
    }
}

} // verus!
