//! Byte-level building blocks of the wire format: little- and big-endian
//! integers and zero-padded ASCII decimals.

use vstd::prelude::*;

verus! {

/// The two bytes of `v`, least significant first.
pub open spec fn le16(v: u16) -> Seq<u8> {
    seq![(v % 256) as u8, (v / 256) as u8]
}

/// The two bytes of `v`, most significant first.
pub open spec fn be16(v: u16) -> Seq<u8> {
    seq![(v / 256) as u8, (v % 256) as u8]
}

/// The four bytes of `v`, least significant first.
pub open spec fn le32(v: u32) -> Seq<u8> {
    seq![
        (v % 0x100) as u8,
        ((v / 0x100) % 0x100) as u8,
        ((v / 0x1_0000) % 0x100) as u8,
        (v / 0x100_0000) as u8,
    ]
}

/// The number that four bytes encode, least significant first.
pub open spec fn le32_value(b: Seq<u8>) -> nat
    recommends
        b.len() == 4,
{
    b[0] as nat + 0x100 * b[1] as nat + 0x1_0000 * b[2] as nat + 0x100_0000 * b[3] as nat
}

/// The ASCII decimal digits of `n`, without leading zeros ("0" for zero).
pub open spec fn decimal(n: nat) -> Seq<u8>
    decreases n,
{
    if n < 10 {
        seq![(48 + n) as u8]
    } else {
        decimal(n / 10).push((48 + n % 10) as u8)
    }
}

/// `s` preceded by as many ASCII zeros as bring it to `width` bytes.
pub open spec fn zero_padded(s: Seq<u8>, width: nat) -> Seq<u8> {
    if s.len() < width {
        Seq::new((width - s.len()) as nat, |i: int| 48u8) + s
    } else {
        s
    }
}

/// `n` in decimal, zero-padded to `width` digits (`{:0width$}`).
pub open spec fn padded_decimal(n: nat, width: nat) -> Seq<u8> {
    zero_padded(decimal(n), width)
}

/// `v` as an explicit sign followed by its magnitude zero-padded to `width`
/// digits (`{}{:0width$}` with `+` or `-`).
pub open spec fn signed_decimal(v: int, width: nat) -> Seq<u8> {
    if v < 0 {
        seq![45u8] + padded_decimal((-v) as nat, width)
    } else {
        seq![43u8] + padded_decimal(v as nat, width)
    }
}

pub fn le16_bytes(v: u16) -> (b: [u8; 2])
    ensures
        b@ == le16(v),
{
    [(v % 256) as u8, (v / 256) as u8]
}

pub fn be16_bytes(v: u16) -> (b: [u8; 2])
    ensures
        b@ == be16(v),
{
    [(v / 256) as u8, (v % 256) as u8]
}

pub fn le32_bytes(v: u32) -> (b: [u8; 4])
    ensures
        b@ == le32(v),
{
    [(v % 0x100) as u8, ((v / 0x100) % 0x100) as u8, ((v / 0x1_0000) % 0x100) as u8, (v / 0x100_0000) as u8]
}

/// Reads four bytes as a little-endian `u32`.
pub fn le32_read(b0: u8, b1: u8, b2: u8, b3: u8) -> (v: u32)
    ensures
        v == le32_value(seq![b0, b1, b2, b3]),
{
    b0 as u32 + 0x100 * (b1 as u32) + 0x1_0000 * (b2 as u32) + 0x100_0000 * (b3 as u32)
}

/// Decoding the four bytes of `le32(v)` gives back `v`.
pub proof fn lemma_le32_roundtrip(v: u32)
    ensures
        le32_value(le32(v)) == v,
        le32(v).len() == 4,
{
}

/// The ASCII decimal digits of `n`.
pub fn decimal_bytes(n: u32) -> (d: Vec<u8>)
    ensures
        d@ == decimal(n as nat),
        1 <= d@.len(),
    decreases n,
{
    if n < 10 {
        let mut d = Vec::new();
        d.push(48 + n as u8);
        d
    } else {
        let mut d = decimal_bytes(n / 10);
        d.push(48 + (n % 10) as u8);
        d
    }
}

/// Appends `s` to `out`.
pub fn push_all(out: &mut Vec<u8>, s: &[u8])
    ensures
        final(out)@ == old(out)@ + s@,
{
    let mut i: usize = 0;
    while i < s.len()
        invariant
            i <= s@.len(),
            out@ == old(out)@ + s@.subrange(0, i as int),
        decreases s@.len() - i,
    {
        out.push(s[i]);
        i = i + 1;
        proof {
            assert(s@.subrange(0, i as int) == s@.subrange(0, i - 1).push(s@[i - 1]));
        }
    }
    assert(s@.subrange(0, s@.len() as int) == s@);
}

/// Appends `n` in decimal, zero-padded to `width` digits.
pub fn push_padded_decimal(out: &mut Vec<u8>, n: u32, width: usize)
    ensures
        final(out)@ == old(out)@ + padded_decimal(n as nat, width as nat),
{
    let d = decimal_bytes(n);
    let mut k: usize = d.len();
    let ghost start = out@;
    while k < width
        invariant
            d@.len() <= k <= width || k == d@.len(),
            d@.len() <= k,
            out@ == start + Seq::new((k - d@.len()) as nat, |i: int| 48u8),
        decreases width - k,
    {
        out.push(48u8);
        k = k + 1;
        proof {
            assert(Seq::new((k - d@.len()) as nat, |i: int| 48u8) =~= Seq::new(
                (k - 1 - d@.len()) as nat,
                |i: int| 48u8,
            ).push(48u8));
        }
    }
    let ghost zeros = out@.subrange(start.len() as int, out@.len() as int);
    push_all(out, d.as_slice());
    proof {
        if d@.len() < width {
            assert(out@ =~= start + (Seq::new((width - d@.len()) as nat, |i: int| 48u8) + d@));
        } else {
            assert(k == d@.len());
            assert(Seq::new(0nat, |i: int| 48u8) =~= Seq::<u8>::empty());
            assert(out@ =~= start + d@);
        }
    }
}

/// Appends `v` with an explicit sign and its magnitude zero-padded to
/// `width` digits.
pub fn push_signed_decimal(out: &mut Vec<u8>, v: i32, width: usize)
    requires
        v != i32::MIN,
    ensures
        final(out)@ == old(out)@ + signed_decimal(v as int, width as nat),
{
    if v < 0 {
        out.push(45u8);
        let m = (-v) as u32;
        push_padded_decimal(out, m, width);
        assert(out@ =~= old(out)@ + (seq![45u8] + padded_decimal((-v) as nat, width as nat)));
    } else {
        out.push(43u8);
        push_padded_decimal(out, v as u32, width);
        assert(out@ =~= old(out)@ + (seq![43u8] + padded_decimal(v as nat, width as nat)));
    }
}

} // verus!
