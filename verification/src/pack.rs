//! Fixed-width bitpacking, provided by the `tantivy_bitpacker` crate.
//!
//! The packed body is modelled by a transcript: the sequence of
//! `(value, width)` pairs handed to the packer. The bytes that the packer
//! flushes while writing, and the bytes of the whole closed stream, are
//! pure functions of that transcript, named `packed_flushed` and
//! `packed_bytes`; the unpacker's `get` recovers the transcript's values
//! from the closed stream.

use vstd::prelude::*;
use vstd::arithmetic::power2::pow2;

verus! {

#[verifier::external_type_specification]
#[verifier::external_body]
pub struct ExBitPacker(tantivy_bitpacker::BitPacker);

#[verifier::external_type_specification]
#[verifier::external_body]
pub struct ExBitUnpacker(tantivy_bitpacker::BitUnpacker);

/// The `(value, width)` pairs written through this packer so far.
pub uninterp spec fn packer_transcript(p: tantivy_bitpacker::BitPacker) -> Seq<(u64, u8)>;

/// The bytes a packer has pushed to its output after writing `t`,
/// before the stream is closed.
pub uninterp spec fn packed_flushed(t: Seq<(u64, u8)>) -> Seq<u8>;

/// The bytes of the whole closed stream for the transcript `t`.
pub uninterp spec fn packed_bytes(t: Seq<(u64, u8)>) -> Seq<u8>;

/// The fixed width this unpacker was created with.
pub uninterp spec fn unpacker_bits(u: tantivy_bitpacker::BitUnpacker) -> u8;

/// `v` is representable in `w` bits.
pub open spec fn fits_width(v: u64, w: u8) -> bool {
    (v as nat) < pow2(w as nat)
}

/// Every entry of `t` was written at width `w` and fits in it.
pub open spec fn uniform_fits(t: Seq<(u64, u8)>, w: u8) -> bool {
    forall|i: int| 0 <= i < t.len() ==> (#[trigger] t[i]).1 == w && fits_width(t[i].0, w)
}

/// The number of bits in the transcript `t`.
pub open spec fn total_bits(t: Seq<(u64, u8)>) -> nat
    decreases t.len(),
{
    if t.len() == 0 {
        0nat
    } else {
        total_bits(t.drop_last()) + t.last().1 as nat
    }
}

/// A uniform transcript of `n` entries holds `n * w` bits.
pub proof fn lemma_total_bits_uniform(t: Seq<(u64, u8)>, w: u8)
    requires
        uniform_fits(t, w),
    ensures
        total_bits(t) == t.len() * w,
    decreases t.len(),
{
    if t.len() > 0 {
        assert(uniform_fits(t.drop_last(), w));
        lemma_total_bits_uniform(t.drop_last(), w);
        assert(t.len() * w == (t.len() - 1) * w + w) by (nonlinear_arith);
    }
}

/// Relies on tantivy_bitpacker::BitPacker::new: a fresh packer has
/// written nothing and flushed nothing.
#[verifier::external_body]
pub(crate) fn packer_new() -> (p: tantivy_bitpacker::BitPacker)
    ensures
        packer_transcript(p) == Seq::<(u64, u8)>::empty(),
        packed_flushed(packer_transcript(p)) == Seq::<u8>::empty(),
{
    tantivy_bitpacker::BitPacker::new()
}

/// Relies on tantivy_bitpacker::BitPacker::write: appends `num_bits` bits
/// holding `val` to the stream, flushing whole bytes to `output` as they
/// fill; what is flushed depends only on the writes made so far. Writing
/// to a `Vec` cannot fail, so the `io::Result` is always `Ok`.
#[verifier::external_body]
pub(crate) fn packer_write(
    p: &mut tantivy_bitpacker::BitPacker,
    val: u64,
    num_bits: u8,
    output: &mut Vec<u8>,
)
    requires
        1 <= num_bits <= 64,
        fits_width(val, num_bits),
    ensures
        packer_transcript(*final(p)) == packer_transcript(*old(p)).push((val, num_bits)),
        final(output)@.len() >= old(output)@.len(),
        final(output)@.subrange(0, old(output)@.len() as int) == old(output)@,
        packed_flushed(packer_transcript(*final(p))) == packed_flushed(packer_transcript(*old(p)))
            + final(output)@.skip(old(output)@.len() as int),
{
    p.write(val, num_bits, output).unwrap();
}

/// Relies on tantivy_bitpacker::BitPacker::close: flushes the final
/// partial byte, so the whole stream for the transcript is out. The
/// closed stream holds exactly one byte per started group of eight bits.
#[verifier::external_body]
pub(crate) fn packer_close(p: &mut tantivy_bitpacker::BitPacker, output: &mut Vec<u8>)
    ensures
        final(output)@.len() >= old(output)@.len(),
        final(output)@.subrange(0, old(output)@.len() as int) == old(output)@,
        packed_bytes(packer_transcript(*old(p))) == packed_flushed(packer_transcript(*old(p)))
            + final(output)@.skip(old(output)@.len() as int),
        packed_bytes(packer_transcript(*old(p))).len() == (total_bits(packer_transcript(*old(p)))
            + 7) / 8,
{
    p.close(output).unwrap();
}

/// Relies on tantivy_bitpacker::BitUnpacker::new, which rejects widths
/// 57 to 63 (its reads are 8 bytes wide) and width 0 aside.
#[verifier::external_body]
pub(crate) fn unpacker_new(num_bits: u8) -> (u: tantivy_bitpacker::BitUnpacker)
    requires
        1 <= num_bits <= 56 || num_bits == 64,
    ensures
        unpacker_bits(u) == num_bits,
{
    tantivy_bitpacker::BitUnpacker::new(num_bits)
}

/// Relies on tantivy_bitpacker::BitUnpacker::get: reads the fixed-width
/// integer at `idx` from a packed stream. On the closed stream of a
/// transcript written wholly at this unpacker's width, it returns the
/// transcript's value at `idx`. The byte address of the read must not
/// pass the end of `data`.
#[verifier::external_body]
pub(crate) fn unpacker_get(u: &tantivy_bitpacker::BitUnpacker, idx: u32, data: &[u8]) -> (r: u64)
    requires
        idx as int * unpacker_bits(*u) as int <= usize::MAX as int,
        (idx as int * unpacker_bits(*u) as int) / 8 <= data@.len(),
    ensures
        forall|t: Seq<(u64, u8)>|
            #![trigger packed_bytes(t)]
            packed_bytes(t) == data@ && uniform_fits(t, unpacker_bits(*u)) && (idx as int) < t.len()
                ==> r == t[idx as int].0,
{
    u.get(idx, data)
}

} // verus!
