//! Address matching for pre-compiled contracts.
//!
//! A pre-compile declares at which 20-byte addresses it is called: either
//! one fixed address, or every address sharing a suffix. The matcher's
//! two-byte (or, for builtins, four-byte) tag lands big-endian in bytes
//! 16..20 of the address; a prefix matcher additionally accepts any value in
//! the four leading bytes.

use vstd::prelude::*;

verus! {

/// Declares the addresses an externally supplied pre-compile answers at.
///
/// The tag, which must not be zero (see [`tag_set`]), occupies address
/// bytes 16 and 17.
#[derive(Copy, Clone, Debug, PartialEq, Eq, Structural)]
pub enum AddressMatcher {
    /// Answer at a single address.
    Fixed(u16),
    /// Answer at every address carrying the tag, whatever its first bytes.
    Prefix(u16),
}

/// Same as [`AddressMatcher`], for builtin pre-compiles: the full four-byte
/// suffix is theirs to choose.
#[derive(Copy, Clone, Debug, PartialEq, Eq, Structural)]
pub enum BuiltinAddressMatcher {
    /// Answer at a single address.
    Fixed(u32),
    /// Answer at every address carrying the suffix.
    Prefix(u32),
}

/// A matcher's tag must not be zero: the all-zero address region stays free
/// of pre-compiles.
pub open spec fn tag_set(m: AddressMatcher) -> bool {
    match m {
        AddressMatcher::Fixed(i) => i != 0,
        AddressMatcher::Prefix(i) => i != 0,
    }
}

/// A builtin matcher's suffix must not be zero either.
pub open spec fn suffix_set(m: BuiltinAddressMatcher) -> bool {
    suffix_of(m) != 0
}

/// The four-byte value a matcher writes into address bytes 16..20.
pub open spec fn suffix_of(m: BuiltinAddressMatcher) -> u32 {
    match m {
        BuiltinAddressMatcher::Fixed(i) => i,
        BuiltinAddressMatcher::Prefix(i) => i,
    }
}

/// The address bytes of `suffix` written big-endian at positions 16..20,
/// zero elsewhere.
pub open spec fn base_address_of(m: BuiltinAddressMatcher) -> Seq<u8> {
    let s = suffix_of(m);
    Seq::new(
        20,
        |i: int|
            if i == 16 {
                (s / 0x100_0000) as u8
            } else if i == 17 {
                ((s / 0x1_0000) % 0x100) as u8
            } else if i == 18 {
                ((s / 0x100) % 0x100) as u8
            } else if i == 19 {
                (s % 0x100) as u8
            } else {
                0u8
            },
    )
}

/// Whether `m` answers at `address`.
pub open spec fn address_matches(m: BuiltinAddressMatcher, address: Seq<u8>) -> bool {
    match m {
        BuiltinAddressMatcher::Fixed(_) => address =~= base_address_of(m),
        BuiltinAddressMatcher::Prefix(_) => forall|i: int|
            4 <= i < 20 ==> address[i] == base_address_of(m)[i],
    }
}

impl BuiltinAddressMatcher {
    /// The four-byte suffix this matcher was declared with.
    fn suffix(&self) -> (r: u32)
        ensures
            r == suffix_of(*self),
    {
        match self {
            BuiltinAddressMatcher::Fixed(i) => *i,
            BuiltinAddressMatcher::Prefix(i) => *i,
        }
    }

    /// The lowest address this matcher answers at.
    pub fn base_address(&self) -> (r: [u8; 20])
        requires
            suffix_set(*self),
        ensures
            r@ == base_address_of(*self),
    {
        let suffix = self.suffix();
        let mut address = [0u8; 20];
        address[16] = (suffix / 0x100_0000) as u8;
        address[17] = ((suffix / 0x1_0000) % 0x100) as u8;
        address[18] = ((suffix / 0x100) % 0x100) as u8;
        address[19] = (suffix % 0x100) as u8;
        proof {
            assert(address@ =~= base_address_of(*self));
        }
        address
    }

    /// The highest address this matcher answers at.
    pub fn highest_address(&self) -> (r: [u8; 20])
        requires
            suffix_set(*self),
        ensures
            matches!(self, BuiltinAddressMatcher::Fixed(_)) ==> r@ == base_address_of(*self),
            matches!(self, BuiltinAddressMatcher::Prefix(_)) ==> {
                &&& forall|i: int| 0 <= i < 4 ==> r@[i] == 0xFFu8
                &&& forall|i: int| 4 <= i < 20 ==> r@[i] == base_address_of(*self)[i]
            },
    {
        let mut address = self.base_address();
        match self {
            BuiltinAddressMatcher::Fixed(_) => {},
            BuiltinAddressMatcher::Prefix(_) => {
                address[0] = 0xFF;
                address[1] = 0xFF;
                address[2] = 0xFF;
                address[3] = 0xFF;
            },
        }
        address
    }

    /// Whether this matcher answers at `address`.
    pub fn matches(&self, address: &[u8; 20]) -> (r: bool)
        requires
            suffix_set(*self),
        ensures
            r == address_matches(*self, address@),
    {
        let base_address = self.base_address();
        let start: usize = match self {
            BuiltinAddressMatcher::Fixed(_) => 0,
            BuiltinAddressMatcher::Prefix(_) => 4,
        };
        let mut i = start;
        while i < 20
            invariant
                start <= i <= 20,
                start == 0 || start == 4,
                (*self is Fixed) <==> start == 0,
                base_address@ == base_address_of(*self),
                forall|j: int| start <= j < i ==> address@[j] == base_address@[j],
            decreases 20 - i,
        {
            if address[i] != base_address[i] {
                proof {
                    assert(address@[i as int] != base_address_of(*self)[i as int]);
                    if start == 0 {
                        assert(!(address@ =~= base_address_of(*self)));
                    }
                }
                return false;
            }
            i = i + 1;
        }
        proof {
            if start == 0 {
                assert(address@ =~= base_address_of(*self));
            }
        }
        true
    }
}

impl AddressMatcher {
    /// This matcher as a builtin one: the two-byte tag shifted into address
    /// bytes 16 and 17.
    fn into_builtin(&self) -> (r: BuiltinAddressMatcher)
        requires
            tag_set(*self),
        ensures
            r == self.as_builtin(),
            suffix_set(r),
            suffix_of(r) == match *self {
                AddressMatcher::Fixed(i) => i as u32 * 0x1_0000,
                AddressMatcher::Prefix(i) => i as u32 * 0x1_0000,
            },
            matches!(self, AddressMatcher::Fixed(_)) == matches!(
                r,
                BuiltinAddressMatcher::Fixed(_),
            ),
    {
        match self {
            AddressMatcher::Fixed(i) => BuiltinAddressMatcher::Fixed((*i as u32) * 0x1_0000),
            AddressMatcher::Prefix(i) => BuiltinAddressMatcher::Prefix((*i as u32) * 0x1_0000),
        }
    }

    /// The lowest address this matcher answers at.
    pub fn base_address(&self) -> (r: [u8; 20])
        requires
            tag_set(*self),
        ensures
            r@ == base_address_of(self.as_builtin()),
    {
        self.into_builtin().base_address()
    }

    /// The highest address this matcher answers at.
    pub fn highest_address(&self) -> (r: [u8; 20])
        requires
            tag_set(*self),
        ensures
            matches!(self, AddressMatcher::Fixed(_)) ==> r@ == base_address_of(self.as_builtin()),
            matches!(self, AddressMatcher::Prefix(_)) ==> {
                &&& forall|i: int| 0 <= i < 4 ==> r@[i] == 0xFFu8
                &&& forall|i: int| 4 <= i < 20 ==> r@[i] == base_address_of(self.as_builtin())[i]
            },
    {
        self.into_builtin().highest_address()
    }

    /// Whether this matcher answers at `address`.
    pub fn matches(&self, address: &[u8; 20]) -> (r: bool)
        requires
            tag_set(*self),
        ensures
            r == address_matches(self.as_builtin(), address@),
    {
        self.into_builtin().matches(address)
    }

    /// The builtin matcher this one amounts to.
    pub open spec fn as_builtin(self) -> BuiltinAddressMatcher {
        match self {
            AddressMatcher::Fixed(i) => BuiltinAddressMatcher::Fixed((i as u32 * 0x1_0000) as u32),
            AddressMatcher::Prefix(i) => BuiltinAddressMatcher::Prefix(
                (i as u32 * 0x1_0000) as u32,
            ),
        }
    }
}

} // verus!
