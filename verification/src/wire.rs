//! Wire framing for transport pages.
//!
//! Every page begins with a one-byte format discriminator. A `Signals` page
//! carries a sequence of one-byte control frames; a `ConcatenatedPayload`
//! page carries a sequence of length-prefixed opaque fragments. The length
//! prefix uses the compact unsigned encoding: the two low bits of the first
//! byte select how many bytes the prefix occupies, and the remaining bits
//! hold the value, little-endian.

use vstd::prelude::*;

verus! {

/// Format discriminator of a transport page.
#[derive(Copy, Clone, Debug, PartialEq, Eq, Structural)]
pub enum PageFormat {
    /// A sequence of length-prefixed opaque payload fragments.
    ConcatenatedPayload,
    /// A blob format this engine does not interpret; such pages are dropped.
    UnsupportedBlob,
    /// A sequence of one-byte backpressure control frames.
    Signals,
}

/// A backpressure control frame exchanged between peers.
#[derive(Copy, Clone, Debug, PartialEq, Eq, Structural)]
pub enum ChannelSignal {
    /// Ask the receiving side to stop sending to us.
    Suspend,
    /// Ask the receiving side to resume sending to us.
    Resume,
}

/// The byte a page format is written as on the wire.
pub open spec fn format_byte(f: PageFormat) -> u8 {
    match f {
        PageFormat::ConcatenatedPayload => 0u8,
        PageFormat::UnsupportedBlob => 1u8,
        PageFormat::Signals => 2u8,
    }
}

/// The byte a control frame is written as on the wire.
pub open spec fn signal_byte(s: ChannelSignal) -> u8 {
    match s {
        ChannelSignal::Suspend => 0u8,
        ChannelSignal::Resume => 1u8,
    }
}

/// Number of bytes the format discriminator occupies at the head of a page.
pub const FORMAT_HEADER_SIZE: usize = 1;

/// Writes the format discriminator byte.
pub fn encode_format(f: PageFormat) -> (b: u8)
    ensures
        b == format_byte(f),
{
    match f {
        PageFormat::ConcatenatedPayload => 0u8,
        PageFormat::UnsupportedBlob => 1u8,
        PageFormat::Signals => 2u8,
    }
}

/// Reads a format discriminator byte; unknown bytes are rejected.
pub fn decode_format(b: u8) -> (r: Option<PageFormat>)
    ensures
        r matches Some(f) ==> format_byte(f) == b,
        r is None <==> b > 2,
{
    if b == 0 {
        Some(PageFormat::ConcatenatedPayload)
    } else if b == 1 {
        Some(PageFormat::UnsupportedBlob)
    } else if b == 2 {
        Some(PageFormat::Signals)
    } else {
        None
    }
}

/// Writes a control frame byte.
pub fn encode_signal(s: ChannelSignal) -> (b: u8)
    ensures
        b == signal_byte(s),
{
    match s {
        ChannelSignal::Suspend => 0u8,
        ChannelSignal::Resume => 1u8,
    }
}

/// Reads a control frame byte; unknown bytes are rejected.
pub fn decode_signal(b: u8) -> (r: Option<ChannelSignal>)
    ensures
        r matches Some(s) ==> signal_byte(s) == b,
        r is None <==> b > 1,
{
    if b == 0 {
        Some(ChannelSignal::Suspend)
    } else if b == 1 {
        Some(ChannelSignal::Resume)
    } else {
        None
    }
}

/// The compact encoding of a length `n`: one, two, four or five bytes,
/// selected by the two low bits of the first byte.
pub open spec fn compact_bytes(n: u32) -> Seq<u8> {
    if n < 64 {
        seq![(n * 4) as u8]
    } else if n < 16384 {
        let m = n * 4 + 1;
        seq![(m % 256) as u8, (m / 256) as u8]
    } else if n < 0x4000_0000 {
        let m = n * 4 + 2;
        seq![
            (m % 256) as u8,
            ((m / 256) % 256) as u8,
            ((m / 65536) % 256) as u8,
            (m / 16777216) as u8,
        ]
    } else {
        seq![
            3u8,
            (n % 256) as u8,
            ((n / 256) % 256) as u8,
            ((n / 65536) % 256) as u8,
            (n / 16777216) as u8,
        ]
    }
}

/// A fragment on the wire: its length in compact form, then its bytes.
pub open spec fn fragment_encoding(f: Seq<u8>) -> Seq<u8> {
    compact_bytes(f.len() as u32) + f
}

/// Reads a compact length at `pos`; yields the value and the position after
/// it. Non-canonical encodings (a value stored wider than needed) are
/// rejected.
pub open spec fn parse_compact(s: Seq<u8>, pos: int) -> Option<(u32, int)> {
    if pos < 0 || pos >= s.len() {
        None
    } else {
        let b0 = s[pos] as int;
        if b0 % 4 == 0 {
            Some(((b0 / 4) as u32, pos + 1))
        } else if b0 % 4 == 1 {
            if pos + 2 <= s.len() {
                let m = b0 + 256 * (s[pos + 1] as int);
                if m / 4 >= 64 {
                    Some(((m / 4) as u32, pos + 2))
                } else {
                    None
                }
            } else {
                None
            }
        } else if b0 % 4 == 2 {
            if pos + 4 <= s.len() {
                let m = b0 + 256 * (s[pos + 1] as int) + 65536 * (s[pos + 2] as int) + 16777216 * (
                s[pos + 3] as int);
                if m / 4 >= 16384 {
                    Some(((m / 4) as u32, pos + 4))
                } else {
                    None
                }
            } else {
                None
            }
        } else {
            if s[pos] == 3 && pos + 5 <= s.len() {
                let n = (s[pos + 1] as int) + 256 * (s[pos + 2] as int) + 65536 * (
                s[pos + 3] as int) + 16777216 * (s[pos + 4] as int);
                if n >= 0x4000_0000 {
                    Some((n as u32, pos + 5))
                } else {
                    None
                }
            } else {
                None
            }
        }
    }
}

/// Reads one length-prefixed fragment at `pos`.
pub open spec fn parse_fragment(s: Seq<u8>, pos: int) -> Option<(Seq<u8>, int)> {
    match parse_compact(s, pos) {
        None => None,
        Some((n, p)) => if p + n <= s.len() {
            Some((s.subrange(p, p + n), p + n))
        } else {
            None
        },
    }
}

/// Reads length-prefixed fragments from `pos` to the end of the buffer.
pub open spec fn parse_items(s: Seq<u8>, pos: int) -> Option<Seq<Seq<u8>>>
    decreases s.len() - pos,
{
    if pos == s.len() {
        Some(Seq::empty())
    } else {
        match parse_fragment(s, pos) {
            None => None,
            Some((f, p2)) => if pos < p2 <= s.len() {
                match parse_items(s, p2) {
                    None => None,
                    Some(rest) => Some(seq![f] + rest),
                }
            } else {
                None
            },
        }
    }
}

/// The longest run of fragments decodable from `pos`: decoding stops at the
/// first position that holds no well-formed fragment.
pub open spec fn decoded_items(s: Seq<u8>, pos: int) -> Seq<Seq<u8>>
    decreases s.len() - pos,
{
    if pos < 0 || pos >= s.len() {
        Seq::empty()
    } else {
        match parse_fragment(s, pos) {
            None => Seq::empty(),
            Some((f, p2)) => if pos < p2 <= s.len() {
                seq![f] + decoded_items(s, p2)
            } else {
                Seq::empty()
            },
        }
    }
}

/// Appends the compact encoding of `n` to `out`.
pub fn encode_compact_into(out: &mut Vec<u8>, n: u32)
    requires
        old(out).len() + 5 <= usize::MAX,
    ensures
        final(out)@ == old(out)@ + compact_bytes(n),
{
    if n < 64 {
        out.push((n * 4) as u8);
        assert(out@ =~= old(out)@ + compact_bytes(n));
    } else if n < 16384 {
        let m: u32 = n * 4 + 1;
        out.push((m % 256) as u8);
        out.push((m / 256) as u8);
        assert(out@ =~= old(out)@ + compact_bytes(n));
    } else if n < 0x4000_0000 {
        let m: u32 = n * 4 + 2;
        out.push((m % 256) as u8);
        out.push(((m / 256) % 256) as u8);
        out.push(((m / 65536) % 256) as u8);
        out.push((m / 16777216) as u8);
        assert(out@ =~= old(out)@ + compact_bytes(n));
    } else {
        out.push(3u8);
        out.push((n % 256) as u8);
        out.push(((n / 256) % 256) as u8);
        out.push(((n / 65536) % 256) as u8);
        out.push((n / 16777216) as u8);
        assert(out@ =~= old(out)@ + compact_bytes(n));
    }
}

/// Appends the wire encoding of fragment `f` (compact length, then bytes).
pub fn encode_fragment_into(out: &mut Vec<u8>, f: &Vec<u8>)
    requires
        f.len() < 0x1_0000_0000,
        old(out).len() + 5 + f.len() <= usize::MAX,
    ensures
        final(out)@ == old(out)@ + fragment_encoding(f@),
{
    encode_compact_into(out, f.len() as u32);
    let ghost mid = out@;
    let mut i: usize = 0;
    while i < f.len()
        invariant
            i <= f.len(),
            out@ == mid + f@.subrange(0, i as int),
            out.len() == mid.len() + i,
        decreases f.len() - i,
    {
        out.push(f[i]);
        i = i + 1;
        assert(out@ =~= mid + f@.subrange(0, i as int));
    }
    assert(f@.subrange(0, f.len() as int) =~= f@);
}

/// Reads a compact length from `data` at `pos`, as `parse_compact` does.
pub fn decode_compact(data: &Vec<u8>, pos: usize) -> (r: Option<(u32, usize)>)
    ensures
        match r {
            Some((n, p)) => parse_compact(data@, pos as int) == Some((n, p as int)) && pos < p
                <= data.len(),
            None => parse_compact(data@, pos as int) is None,
        },
{
    if pos >= data.len() {
        return None;
    }
    let b0 = data[pos];
    let mode = b0 % 4;
    if mode == 0 {
        Some(((b0 / 4) as u32, pos + 1))
    } else if mode == 1 {
        if data.len() - pos >= 2 {
            let m: u32 = b0 as u32 + 256 * (data[pos + 1] as u32);
            if m / 4 >= 64 {
                Some((m / 4, pos + 2))
            } else {
                None
            }
        } else {
            None
        }
    } else if mode == 2 {
        if data.len() - pos >= 4 {
            let m: u32 = b0 as u32 + 256 * (data[pos + 1] as u32) + 65536 * (data[pos + 2] as u32)
                + 16777216 * (data[pos + 3] as u32);
            if m / 4 >= 16384 {
                Some((m / 4, pos + 4))
            } else {
                None
            }
        } else {
            None
        }
    } else {
        if b0 == 3 && data.len() - pos >= 5 {
            let n: u32 = data[pos + 1] as u32 + 256 * (data[pos + 2] as u32) + 65536 * (data[pos
                + 3] as u32) + 16777216 * (data[pos + 4] as u32);
            if n >= 0x4000_0000 {
                Some((n, pos + 5))
            } else {
                None
            }
        } else {
            None
        }
    }
}

/// Reads one length-prefixed fragment from `data` at `pos`, copying its bytes
/// out, as `parse_fragment` does.
pub fn decode_fragment(data: &Vec<u8>, pos: usize) -> (r: Option<(Vec<u8>, usize)>)
    ensures
        match r {
            Some((f, p)) => parse_fragment(data@, pos as int) == Some((f@, p as int)) && pos < p
                <= data.len(),
            None => parse_fragment(data@, pos as int) is None,
        },
{
    match decode_compact(data, pos) {
        None => None,
        Some((n, p)) => {
            if n as usize <= data.len() - p {
                let end = p + n as usize;
                let mut f: Vec<u8> = Vec::new();
                let mut i: usize = p;
                while i < end
                    invariant
                        p <= i <= end <= data.len(),
                        f@ == data@.subrange(p as int, i as int),
                    decreases end - i,
                {
                    f.push(data[i]);
                    i = i + 1;
                    assert(f@ =~= data@.subrange(p as int, i as int));
                }
                Some((f, end))
            } else {
                None
            }
        },
    }
}

/// The compact encoding read back from any buffer that carries it yields the
/// value it was written from.
pub proof fn lemma_compact_roundtrip(s: Seq<u8>, pos: int, n: u32)
    requires
        0 <= pos,
        pos + compact_bytes(n).len() <= s.len(),
        forall|i: int|
            0 <= i < compact_bytes(n).len() ==> s[pos + i] == compact_bytes(n)[i],
    ensures
        parse_compact(s, pos) == Some((n, pos + compact_bytes(n).len())),
{
    let c = compact_bytes(n);
    if n < 64 {
        assert(s[pos + 0] == c[0]);
        let b0 = s[pos] as u32;
        assert(b0 == n * 4);
        assert(b0 % 4 == 0 && b0 / 4 == n) by (bit_vector)
            requires
                b0 == n * 4,
                n < 64,
        ;
    } else if n < 16384 {
        assert(s[pos + 0] == c[0] && s[pos + 1] == c[1]);
        let m: u32 = (n * 4 + 1) as u32;
        let b0 = s[pos] as u32;
        let b1 = s[pos + 1] as u32;
        assert(b0 == m % 256 && b1 == m / 256);
        assert(b0 + 256 * b1 == m && b0 % 4 == 1 && m / 4 == n && m / 4 >= 64) by (bit_vector)
            requires
                b0 == m % 256 && b1 == m / 256 && m == n * 4 + 1 && 64 <= n < 16384,
        ;
    } else if n < 0x4000_0000 {
        assert(s[pos + 0] == c[0] && s[pos + 1] == c[1] && s[pos + 2] == c[2] && s[pos + 3]
            == c[3]);
        let m: u32 = (n * 4 + 2) as u32;
        let b0 = s[pos] as u32;
        let b1 = s[pos + 1] as u32;
        let b2 = s[pos + 2] as u32;
        let b3 = s[pos + 3] as u32;
        assert(b0 == m % 256 && b1 == (m / 256) % 256 && b2 == (m / 65536) % 256 && b3 == m
            / 16777216);
        assert(b0 + 256 * b1 + 65536 * b2 + 16777216 * b3 == m && b0 % 4 == 2 && m / 4 == n && m
            / 4 >= 16384) by (bit_vector)
            requires
                b0 == m % 256 && b1 == (m / 256) % 256 && b2 == (m / 65536) % 256 && b3 == m
                    / 16777216 && m == n * 4 + 2 && 16384 <= n < 0x4000_0000,
        ;
    } else {
        assert(s[pos + 0] == c[0] && s[pos + 1] == c[1] && s[pos + 2] == c[2] && s[pos + 3]
            == c[3] && s[pos + 4] == c[4]);
        let b1 = s[pos + 1] as u32;
        let b2 = s[pos + 2] as u32;
        let b3 = s[pos + 3] as u32;
        let b4 = s[pos + 4] as u32;
        assert(s[pos] == 3u8);
        assert(b1 == n % 256 && b2 == (n / 256) % 256 && b3 == (n / 65536) % 256 && b4 == n
            / 16777216);
        assert(b1 + 256 * b2 + 65536 * b3 + 16777216 * b4 == n) by (bit_vector)
            requires
                b1 == n % 256 && b2 == (n / 256) % 256 && b3 == (n / 65536) % 256 && b4 == n
                    / 16777216,
        ;
    }
}

/// Splits a value below 2^32 into its four little-endian base-256 digits and
/// puts it back together.
proof fn lemma_le4_reconstruct(m: int)
    requires
        0 <= m < 0x1_0000_0000,
    ensures
        m % 256 + 256 * ((m / 256) % 256) + 65536 * ((m / 65536) % 256) + 16777216 * (m
            / 16777216) == m,
{
    let m32 = m as u32;
    assert(m32 % 256 + 256 * ((m32 / 256) % 256) + 65536 * ((m32 / 65536) % 256) + 16777216 * (
    m32 / 16777216) == m32) by (bit_vector);
}

/// A fragment written at the end of a buffer reads back as itself.
pub proof fn lemma_fragment_roundtrip(s: Seq<u8>, pos: int, f: Seq<u8>)
    requires
        0 <= pos,
        f.len() < 0x1_0000_0000,
        pos + fragment_encoding(f).len() <= s.len(),
        forall|i: int|
            0 <= i < fragment_encoding(f).len() ==> s[pos + i] == fragment_encoding(f)[i],
    ensures
        parse_fragment(s, pos) == Some((f, pos + fragment_encoding(f).len())),
{
    let n = f.len() as u32;
    let clen = compact_bytes(n).len() as int;
    assert forall|i: int| 0 <= i < clen implies s[pos + i] == compact_bytes(n)[i] by {
        assert(s[pos + i] == fragment_encoding(f)[i]);
        assert(fragment_encoding(f)[i] == compact_bytes(n)[i]);
    }
    lemma_compact_roundtrip(s, pos, n);
    let p = pos + clen;
    assert(s.subrange(p, p + n) =~= f) by {
        assert forall|j: int| 0 <= j < n implies s[p + j] == f[j] by {
            assert(s[pos + (clen + j)] == fragment_encoding(f)[clen + j]);
        }
    }
}

/// A page body holding exactly one encoded fragment decodes back to that
/// fragment alone.
pub proof fn lemma_sole_fragment_roundtrip(f: Seq<u8>)
    requires
        f.len() < 0x1_0000_0000,
    ensures
        parse_items(fragment_encoding(f), 0) == Some(seq![f]),
{
    let s = fragment_encoding(f);
    lemma_fragment_roundtrip(s, 0, f);
    assert(parse_items(s, s.len() as int) == Some(Seq::<Seq<u8>>::empty()));
    assert(seq![f] + Seq::<Seq<u8>>::empty() =~= seq![f]);
}

} // verus!
