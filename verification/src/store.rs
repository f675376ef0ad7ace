//! Persistent keyed stores: queued pages, pending signals and fee factors.
//!
//! Each store wraps a hash map and exposes its contents as a mathematical
//! map. Page keys pair the peer with a 16-bit page index.

use std::collections::HashMap;
use vstd::prelude::*;

verus! {

broadcast use vstd::std_specs::hash::group_hash_axioms;

/// The store key of page `index` of `peer`'s channel.
pub open spec fn page_key(peer: u32, index: u16) -> u64 {
    (peer as u64 * 0x1_0000 + index as u64) as u64
}

/// Two distinct (peer, index) pairs never collide in the store.
pub proof fn lemma_page_key_injective(p1: u32, i1: u16, p2: u32, i2: u16)
    requires
        page_key(p1, i1) == page_key(p2, i2),
    ensures
        p1 == p2 && i1 == i2,
{
    assert(p1 == p2 && i1 == i2) by (nonlinear_arith)
        requires
            p1 as u64 * 0x1_0000 + i1 as u64 == p2 as u64 * 0x1_0000 + i2 as u64,
            i1 < 0x1_0000,
            i2 < 0x1_0000,
    ;
}

/// The framed byte buffers queued for extraction, keyed by peer and page
/// index.
pub struct PageStore {
    map: HashMap<u64, Vec<u8>>,
}

impl View for PageStore {
    type V = Map<u64, Seq<u8>>;

    closed spec fn view(&self) -> Map<u64, Seq<u8>> {
        Map::new(
            |k: u64| self.map@.contains_key(k),
            |k: u64| self.map@[k]@,
        )
    }
}

impl PageStore {
    /// An empty store.
    pub fn new() -> (s: PageStore)
        ensures
            s@ == Map::<u64, Seq<u8>>::empty(),
    {
        let s = PageStore { map: HashMap::new() };
        proof {
            assert(s@ =~= Map::<u64, Seq<u8>>::empty());
        }
        s
    }

    /// The page at `(peer, index)`, if one is stored.
    pub fn get(&self, peer: u32, index: u16) -> (r: Option<&Vec<u8>>)
        ensures
            match r {
                Some(v) => self@.contains_key(page_key(peer, index)) && v@ == self@[page_key(
                    peer,
                    index,
                )],
                None => !self@.contains_key(page_key(peer, index)),
            },
    {
        let k: u64 = (peer as u64) * 0x1_0000 + (index as u64);
        self.map.get(&k)
    }

    /// Whether a page is stored at `(peer, index)`.
    pub fn contains(&self, peer: u32, index: u16) -> (r: bool)
        ensures
            r == self@.contains_key(page_key(peer, index)),
    {
        let k: u64 = (peer as u64) * 0x1_0000 + (index as u64);
        self.map.contains_key(&k)
    }

    /// Stores `page` at `(peer, index)`, replacing what was there.
    pub fn insert(&mut self, peer: u32, index: u16, page: Vec<u8>)
        ensures
            final(self)@ == old(self)@.insert(page_key(peer, index), page@),
    {
        let ghost pv = page@;
        let k: u64 = (peer as u64) * 0x1_0000 + (index as u64);
        self.map.insert(k, page);
        proof {
            assert(self@ =~= old(self)@.insert(page_key(peer, index), pv));
        }
    }

    /// Deletes the page at `(peer, index)`, if any.
    pub fn remove(&mut self, peer: u32, index: u16)
        ensures
            final(self)@ == old(self)@.remove(page_key(peer, index)),
    {
        let k: u64 = (peer as u64) * 0x1_0000 + (index as u64);
        self.map.remove(&k);
        proof {
            assert(self@ =~= old(self)@.remove(page_key(peer, index)));
        }
    }

    /// Drops every stored page.
    pub fn clear(&mut self)
        ensures
            final(self)@ == Map::<u64, Seq<u8>>::empty(),
    {
        self.map.clear();
        proof {
            assert(self@ =~= Map::<u64, Seq<u8>>::empty());
        }
    }
}

/// At most one pending control-frame page per peer.
pub struct SignalStore {
    map: HashMap<u32, Vec<u8>>,
}

impl View for SignalStore {
    type V = Map<u32, Seq<u8>>;

    closed spec fn view(&self) -> Map<u32, Seq<u8>> {
        Map::new(
            |k: u32| self.map@.contains_key(k),
            |k: u32| self.map@[k]@,
        )
    }
}

impl SignalStore {
    /// An empty store.
    pub fn new() -> (s: SignalStore)
        ensures
            s@ == Map::<u32, Seq<u8>>::empty(),
    {
        let s = SignalStore { map: HashMap::new() };
        proof {
            assert(s@ =~= Map::<u32, Seq<u8>>::empty());
        }
        s
    }

    /// The pending control frame page for `peer`, if any.
    pub fn get(&self, peer: u32) -> (r: Option<&Vec<u8>>)
        ensures
            match r {
                Some(v) => self@.contains_key(peer) && v@ == self@[peer],
                None => !self@.contains_key(peer),
            },
    {
        self.map.get(&peer)
    }

    /// Whether a control frame is pending for `peer`.
    pub fn contains(&self, peer: u32) -> (r: bool)
        ensures
            r == self@.contains_key(peer),
    {
        self.map.contains_key(&peer)
    }

    /// Stores `page` as `peer`'s pending control frame, overwriting any
    /// earlier one.
    pub fn insert(&mut self, peer: u32, page: Vec<u8>)
        ensures
            final(self)@ == old(self)@.insert(peer, page@),
    {
        let ghost pv = page@;
        self.map.insert(peer, page);
        proof {
            assert(self@ =~= old(self)@.insert(peer, pv));
        }
    }

    /// Deletes `peer`'s pending control frame, if any.
    pub fn remove(&mut self, peer: u32)
        ensures
            final(self)@ == old(self)@.remove(peer),
    {
        self.map.remove(&peer);
        proof {
            assert(self@ =~= old(self)@.remove(peer));
        }
    }
}

/// The per-peer delivery fee factors that are above the configured floor.
///
/// A peer absent from the store is at the floor.
pub struct FeeStore {
    map: HashMap<u32, u128>,
}

impl View for FeeStore {
    type V = Map<u32, u128>;

    closed spec fn view(&self) -> Map<u32, u128> {
        self.map@
    }
}

impl FeeStore {
    /// An empty store: every peer at the floor.
    pub fn new() -> (s: FeeStore)
        ensures
            s@ == Map::<u32, u128>::empty(),
    {
        FeeStore { map: HashMap::new() }
    }

    /// The stored factor for `peer`, or `floor` when none is stored.
    pub fn get_or(&self, peer: u32, floor: u128) -> (r: u128)
        ensures
            r == if self@.contains_key(peer) {
                self@[peer]
            } else {
                floor
            },
    {
        match self.map.get(&peer) {
            Some(v) => *v,
            None => floor,
        }
    }

    /// Stores `factor` for `peer`.
    pub fn set(&mut self, peer: u32, factor: u128)
        ensures
            final(self)@ == old(self)@.insert(peer, factor),
    {
        self.map.insert(peer, factor);
    }
}

} // verus!
