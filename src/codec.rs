use vstd::prelude::*;
use vstd::arithmetic::div_mod::{lemma_fundamental_div_mod_converse, lemma_mod_multiples_vanish};

verus! {

/// One receive IQ sample already scaled to 24-bit full scale: (I, Q).
pub type IqSample = (i32, i32);

/// Full scale of a 24-bit receive sample.
pub const IQ24_FULL_SCALE: i32 = 8_388_607;

/// The low 24 bits of `v` in two's complement, as a number in 0..2^24.
pub open spec fn u24_of(v: int) -> int {
    v % 0x100_0000
}

/// Three big-endian bytes holding `v` masked to 24 bits.
pub open spec fn be24(v: int) -> Seq<u8> {
    let u = u24_of(v);
    seq![(u / 0x1_0000) as u8, ((u / 0x100) % 0x100) as u8, (u % 0x100) as u8]
}

/// The six bytes of one receive IQ sample: I, then Q, each 24-bit big-endian.
pub open spec fn iq24_bytes(sample: (i32, i32)) -> Seq<u8> {
    be24(sample.0 as int) + be24(sample.1 as int)
}

/// Three big-endian bytes read as a signed 24-bit integer.
pub open spec fn s24(b0: u8, b1: u8, b2: u8) -> int {
    let u = b0 as int * 0x1_0000 + b1 as int * 0x100 + b2 as int;
    if u >= 0x80_0000 {
        u - 0x100_0000
    } else {
        u
    }
}

/// Two big-endian bytes read as a signed 16-bit integer.
pub open spec fn s16(hi: u8, lo: u8) -> int {
    let u = hi as int * 0x100 + lo as int;
    if u >= 0x8000 {
        u - 0x1_0000
    } else {
        u
    }
}

/// The transmit samples held in `data`: from each whole 8-byte block
/// `[L R I Q]` of 16-bit big-endian values, the pair (I, Q).
pub open spec fn tx_samples(data: Seq<u8>) -> Seq<(i16, i16)> {
    Seq::new(
        (data.len() / 8) as nat,
        |k: int| (s16(data[8 * k + 4], data[8 * k + 5]) as i16, s16(data[8 * k + 6], data[8 * k + 7]) as i16),
    )
}

fn u24_pattern(v: i32) -> (u: u32)
    ensures
        u as int == u24_of(v as int),
        u < 0x100_0000,
{
    let w: u64 = (v as i64 + 0x1_0000_0000i64) as u64;
    proof {
        lemma_mod_multiples_vanish(0x100, v as int, 0x100_0000);
    }
    (w % 0x100_0000) as u32
}

/// Writes `sample` at `offset` as six bytes (I then Q, 24-bit signed
/// big-endian, each masked to 24 bits) and returns the offset past them.
pub fn pack_iq_24bit_into(buf: &mut Vec<u8>, offset: usize, sample: (i32, i32)) -> (r: usize)
    requires
        offset + 6 <= old(buf)@.len(),
    ensures
        r == offset + 6,
        final(buf)@ == old(buf)@.subrange(0, offset as int) + iq24_bytes(sample) + old(buf)@.subrange(
            offset + 6,
            old(buf)@.len() as int,
        ),
{
    let len = buf.len();
    let iu = u24_pattern(sample.0);
    let qu = u24_pattern(sample.1);
    buf[offset] = (iu / 0x1_0000) as u8;
    buf[offset + 1] = ((iu / 0x100) % 0x100) as u8;
    buf[offset + 2] = (iu % 0x100) as u8;
    buf[offset + 3] = (qu / 0x1_0000) as u8;
    buf[offset + 4] = ((qu / 0x100) % 0x100) as u8;
    buf[offset + 5] = (qu % 0x100) as u8;
    assert(final(buf)@ =~= old(buf)@.subrange(0, offset as int) + iq24_bytes(sample) + old(buf)@.subrange(
        offset + 6,
        old(buf)@.len() as int,
    ));
    offset + 6
}

fn be16_signed(hi: u8, lo: u8) -> (r: i16)
    ensures
        r as int == s16(hi, lo),
{
    let u: i32 = hi as i32 * 0x100 + lo as i32;
    if u >= 0x8000 {
        (u - 0x1_0000) as i16
    } else {
        u as i16
    }
}

/// Decodes the transmit IQ in `data`: one (I, Q) pair of raw 16-bit values
/// per whole 8-byte block; a trailing partial block is dropped.
pub fn unpack_tx_iq_16bit(data: &[u8]) -> (r: Vec<(i16, i16)>)
    ensures
        r@ == tx_samples(data@),
{
    let mut samples: Vec<(i16, i16)> = Vec::new();
    let mut off: usize = 0;
    while data.len() - off >= 8
        invariant
            off == 8 * samples@.len(),
            off <= data@.len(),
            forall|k: int| 0 <= k < samples@.len() ==> #[trigger] samples@[k] == (
                s16(data@[8 * k + 4], data@[8 * k + 5]) as i16,
                s16(data@[8 * k + 6], data@[8 * k + 7]) as i16,
            ),
        decreases data@.len() - off,
    {
        let i_val = be16_signed(data[off + 4], data[off + 5]);
        let q_val = be16_signed(data[off + 6], data[off + 7]);
        samples.push((i_val, q_val));
        off = off + 8;
    }
    proof {
        lemma_fundamental_div_mod_converse(data@.len() as int, 8, samples@.len() as int, data@.len() - off);
    }
    assert(samples@ =~= tx_samples(data@));
    samples
}

/// Round-trip law: every value of the 24-bit signed range, encoded as three
/// big-endian bytes, reads back as itself.
pub proof fn lemma_iq24_round_trip(v: int)
    requires
        -0x80_0000 <= v < 0x80_0000,
    ensures
        s24(be24(v)[0], be24(v)[1], be24(v)[2]) == v,
{
    let u = u24_of(v);
    assert(0 <= u < 0x100_0000);
    assert(u == v || u == v + 0x100_0000);
    let hi = u / 0x1_0000;
    let mid = (u / 0x100) % 0x100;
    let lo = u % 0x100;
    assert(hi * 0x1_0000 + mid * 0x100 + lo == u);
}

} // verus!
