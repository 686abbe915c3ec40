use vstd::prelude::*;

verus! {

/// The number of bytes a packet buffer holds: the conventional maximum
/// size of a DNS message without size extension.
pub const CAPACITY: usize = 512;

/// The big-endian 16-bit value spelled by two bytes.
pub open spec fn u16_of(hi: u8, lo: u8) -> u16 {
    (hi * 256 + lo) as u16
}

/// The two big-endian bytes of a 16-bit value, high byte first.
pub open spec fn u16_bytes(val: u16) -> Seq<u8> {
    seq![(val / 256) as u8, (val % 256) as u8]
}

/// The big-endian 32-bit value spelled by four bytes.
pub open spec fn u32_of(b0: u8, b1: u8, b2: u8, b3: u8) -> u32 {
    (b0 * 0x1000000 + b1 * 0x10000 + b2 * 0x100 + b3) as u32
}

/// The four big-endian bytes of a 32-bit value, most significant first.
pub open spec fn u32_bytes(val: u32) -> Seq<u8> {
    seq![
        (val / 0x1000000) as u8,
        ((val / 0x10000) % 0x100) as u8,
        ((val / 0x100) % 0x100) as u8,
        (val % 0x100) as u8,
    ]
}

/// `data` with the bytes starting at `p` overwritten by `patch`; all
/// other bytes keep their values.
pub open spec fn spliced(data: Seq<u8>, p: int, patch: Seq<u8>) -> Seq<u8> {
    data.subrange(0, p) + patch + data.subrange(p + patch.len(), data.len() as int)
}

/// Splicing one run of bytes and then a second run right after it is one
/// splice of the two runs together.
pub proof fn lemma_spliced_concat(data: Seq<u8>, p: int, a: Seq<u8>, b: Seq<u8>)
    requires
        0 <= p,
        p + a.len() + b.len() <= data.len(),
    ensures
        spliced(spliced(data, p, a), p + a.len(), b) == spliced(data, p, a + b),
{
    assert(spliced(spliced(data, p, a), p + a.len(), b) =~= spliced(data, p, a + b));
}

/// A single-byte splice is a point update.
pub proof fn lemma_spliced_one(data: Seq<u8>, p: int, v: u8)
    requires
        0 <= p < data.len(),
    ensures
        spliced(data, p, seq![v]) == data.update(p, v),
{
    assert(spliced(data, p, seq![v]) =~= data.update(p, v));
}

/// Reading back the two bytes of a 16-bit value gives the value.
pub proof fn lemma_u16_roundtrip(val: u16)
    ensures
        u16_of(u16_bytes(val)[0], u16_bytes(val)[1]) == val,
{
    assert(val / 256 < 256 && (val / 256) * 256 + val % 256 == val) by (nonlinear_arith);
}

/// Reading back the four bytes of a 32-bit value gives the value.
pub proof fn lemma_u32_roundtrip(val: u32)
    ensures
        u32_of(u32_bytes(val)[0], u32_bytes(val)[1], u32_bytes(val)[2], u32_bytes(val)[3])
            == val,
{
    assert((val / 0x1000000) * 0x1000000 + ((val / 0x10000) % 0x100) * 0x10000 + ((val
        / 0x100) % 0x100) * 0x100 + val % 0x100 == val) by (bit_vector);
    assert(val / 0x1000000 < 0x100) by (bit_vector);
}

} // verus!
