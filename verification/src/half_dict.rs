//! A block-oriented size estimator: inside each block the most common
//! values would be dictionary-coded behind a presence bit mask, the rest
//! kept at the interval codec's width. The codec only reports how large
//! such a stream would be; it emits no bytes and does not decode.

use vstd::prelude::*;

use crate::interval;
use crate::sort;
use crate::{get_most_common, DecodeError, EncodeError, IpRepr};

verus! {

/// A presence mask for one block of up to 1024 elements.
#[derive(Debug)]
pub struct BlockBitMask {
    pub bit_mask: [u64; 16],
}

impl BlockBitMask {
    /// A mask with every bit clear.
    pub fn new() -> (r: BlockBitMask)
        ensures
            forall|i: int| 0 <= i < 16 ==> r.bit_mask@[i] == 0u64,
    {
        BlockBitMask { bit_mask: [0u64; 16] }
    }

    /// Sets bit `pos`: one word is updated, the others are untouched.
    pub fn set(&mut self, pos: usize)
        requires
            pos < 1024,
        ensures
            final(self).bit_mask@ == old(self).bit_mask@.update(
                (pos / 64) as int,
                old(self).bit_mask@[(pos / 64) as int] | (1u64 << ((pos % 64) as u64)),
            ),
    {
        let word = pos / 64;
        let bit = pos % 64;
        self.bit_mask[word] = self.bit_mask[word] | (1u64 << (bit as u64));
    }
}

/// The exact bit cost of one encoded block.
pub struct BlockMetaData {
    pub num_bits_for_dict_encoded: usize,
    pub block_size: usize,
    pub num_bits_other: u8,
    pub num_dict_encoded: usize,
}

impl BlockMetaData {
    /// The bit cost of one block under this metadata.
    pub open spec fn spec_num_bits(self) -> int {
        self.num_dict_encoded * self.num_bits_for_dict_encoded + (self.block_size
            - self.num_dict_encoded) * self.num_bits_other + self.block_size
    }

    /// Bits for the dictionary-coded elements, bits for the rest, and one
    /// presence bit per element.
    pub fn get_num_bits(&self) -> (r: usize)
        requires
            self.num_dict_encoded <= self.block_size,
            self.spec_num_bits() <= usize::MAX,
        ensures
            r == self.spec_num_bits(),
    {
        let dict_enc_bits = self.num_dict_encoded * self.num_bits_for_dict_encoded;
        let other_enc_size = (self.block_size - self.num_dict_encoded) * (
        self.num_bits_other as usize);
        let bit_mask_num_bits = self.block_size;
        dict_enc_bits + other_enc_size + bit_mask_num_bits
    }
}

/// Whether `x` is one of the dictionary values.
pub open spec fn in_dict(dict: Seq<u128>, x: u128) -> bool {
    exists|k: int| 0 <= k < dict.len() && dict[k] == x
}

/// How many elements of `chunk` the dictionary covers.
pub open spec fn count_in_dict(dict: Seq<u128>, chunk: Seq<u128>) -> int
    decreases chunk.len(),
{
    if chunk.len() == 0 {
        0int
    } else {
        count_in_dict(dict, chunk.drop_last()) + (if in_dict(dict, chunk.last()) {
            1int
        } else {
            0int
        })
    }
}

/// Tests dictionary membership by scanning the value list.
fn find_in_dict(dict: &Vec<u128>, x: u128) -> (r: bool)
    ensures
        r == in_dict(dict@, x),
{
    let mut k: usize = 0;
    while k < dict.len()
        invariant
            k <= dict@.len(),
            forall|j: int| 0 <= j < k ==> dict@[j] != x,
        decreases dict@.len() - k,
    {
        if dict[k] == x {
            return true;
        }
        k = k + 1;
    }
    false
}

/// The block-estimator codec: a block size and the ordinal width for the
/// most common values.
#[derive(Debug)]
pub struct HalfDict {
    block_size: usize,
    num_bits_for_most_common: usize,
}

impl HalfDict {
    /// The configuration the estimator can work with: blocks fit the
    /// presence mask and ordinals fit sixteen bits.
    #[verifier::type_invariant]
    pub closed spec fn wf(self) -> bool {
        &&& 1 <= self.block_size <= 1024
        &&& self.num_bits_for_most_common <= 16
    }

    pub fn new(block_size: usize, num_bits_for_most_common: usize) -> (r: HalfDict)
        requires
            1 <= block_size <= 1024,
            num_bits_for_most_common <= 16,
        ensures
            r.wf(),
            r.spec_block_size() == block_size,
            r.spec_num_bits_for_most_common() == num_bits_for_most_common,
    {
        HalfDict { block_size, num_bits_for_most_common }
    }

    pub closed spec fn spec_block_size(self) -> usize {
        self.block_size
    }

    pub closed spec fn spec_num_bits_for_most_common(self) -> usize {
        self.num_bits_for_most_common
    }

    /// The estimated bit cost of one block.
    pub closed spec fn spec_block_bits(self, dict: Seq<u128>, chunk: Seq<u128>, nbo: u8) -> int {
        count_in_dict(dict, chunk) * self.num_bits_for_most_common + (self.block_size
            - count_in_dict(dict, chunk)) * nbo + self.block_size
    }

    /// The estimated bit cost of the first `nblocks` whole blocks.
    pub closed spec fn spec_total_bits(
        self,
        dict: Seq<u128>,
        xs: Seq<u128>,
        nbo: u8,
        nblocks: int,
    ) -> int
        decreases nblocks,
    {
        if nblocks <= 0 {
            0int
        } else {
            self.spec_total_bits(dict, xs, nbo, nblocks - 1) + self.spec_block_bits(
                dict,
                xs.subrange((nblocks - 1) * self.block_size, nblocks * self.block_size),
                nbo,
            )
        }
    }

    /// Estimates the compressed size in bytes at residual width `nbo`:
    /// every whole block of `block_size` elements is costed as dictionary
    /// ordinals plus residuals plus the presence mask; a trailing partial
    /// block is not counted, and the total is rounded down to bytes.
    pub fn estimate_bytes(&self, ip_addrs: &[u128], dict: &Vec<u128>, nbo: u8) -> (r: usize)
        requires
            self.wf(),
            nbo <= 64,
            ip_addrs@.len() <= u64::MAX,
        ensures
            r as int == ({
                let bytes = self.spec_total_bits(
                    dict@,
                    ip_addrs@,
                    nbo,
                    ip_addrs@.len() as int / self.spec_block_size() as int,
                ) / 8;
                if bytes > usize::MAX as int {
                    usize::MAX as int
                } else {
                    bytes
                }
            }),
    {
        let n = ip_addrs.len();
        let num_blocks = n / self.block_size;
        proof {
            assert(num_blocks * self.block_size <= n) by (nonlinear_arith)
                requires
                    num_blocks == n as int / self.block_size as int,
                    self.block_size >= 1,
                    n >= 0,
            ;
        }
        let mut total_bits: u128 = 0;
        let mut blk: usize = 0;
        while blk < num_blocks
            invariant
                self.wf(),
                n == ip_addrs@.len() <= u64::MAX,
                num_blocks == n as int / self.spec_block_size() as int,
                num_blocks * self.spec_block_size() <= n,
                blk <= num_blocks,
                nbo <= 64,
                total_bits == self.spec_total_bits(dict@, ip_addrs@, nbo, blk as int),
                total_bits <= (blk as int) * (1024 * 81),
            decreases num_blocks - blk,
        {
            proof {
                assert((blk + 1) * self.spec_block_size() <= num_blocks * self.spec_block_size())
                    by (nonlinear_arith)
                    requires
                        blk + 1 <= num_blocks,
                        self.spec_block_size() >= 0,
                ;
                assert((blk + 1) * self.spec_block_size() == blk * self.spec_block_size()
                    + self.spec_block_size()) by (nonlinear_arith);
                assert(blk * self.spec_block_size() + self.spec_block_size() <= n);
            }
            let start = blk * self.block_size;
            let mut in_block: usize = 0;
            let mut pos: usize = 0;
            let mut mask = BlockBitMask::new();
            while pos < self.block_size
                invariant
                    self.wf(),
                    n == ip_addrs@.len(),
                    start + self.spec_block_size() <= n,
                    pos <= self.spec_block_size(),
                    in_block as int == count_in_dict(
                        dict@,
                        ip_addrs@.subrange(start as int, start + pos),
                    ),
                    0 <= in_block <= pos,
                decreases self.spec_block_size() - pos,
            {
                let ghost pre = ip_addrs@.subrange(start as int, start + pos);
                let hit = find_in_dict(dict, ip_addrs[start + pos]);
                if hit {
                    mask.set(pos);
                    in_block = in_block + 1;
                }
                proof {
                    let cur = ip_addrs@.subrange(start as int, start + pos + 1);
                    assert(cur.drop_last() =~= pre);
                    assert(cur.last() == ip_addrs@[start + pos]);
                }
                pos = pos + 1;
            }
            let meta = BlockMetaData {
                num_dict_encoded: in_block,
                num_bits_for_dict_encoded: self.num_bits_for_most_common,
                block_size: self.block_size,
                num_bits_other: nbo,
            };
            proof {
                assert(0 <= meta.spec_num_bits() <= 1024 * 81) by (nonlinear_arith)
                    requires
                        meta.num_dict_encoded <= meta.block_size <= 1024,
                        meta.num_bits_for_dict_encoded <= 16,
                        meta.num_bits_other <= 64,
                        meta.num_dict_encoded >= 0,
                ;
                assert((blk + 1) * (1024 * 81) == (blk as int) * (1024 * 81) + 1024 * 81)
                    by (nonlinear_arith);
                assert(ip_addrs@.subrange(start as int, start + self.spec_block_size())
                    == ip_addrs@.subrange(
                    (blk as int) * self.spec_block_size(),
                    (blk + 1) * self.spec_block_size(),
                )) by {
                    assert((blk + 1) * self.spec_block_size() == start + self.spec_block_size())
                        by (nonlinear_arith)
                        requires
                            start == (blk as int) * self.spec_block_size(),
                    ;
                }
            }
            let block_bits = meta.get_num_bits();
            total_bits = total_bits + (block_bits as u128);
            blk = blk + 1;
        }
        let bytes = total_bits / 8;
        if bytes > usize::MAX as u128 {
            return usize::MAX;
        }
        bytes as usize
    }
}

impl HalfDict {
    /// Runs the estimator over the input. The estimator emits nothing:
    /// like the size probe it is, a successful run returns an empty
    /// stream. It fails when the interval trainer cannot fit the values
    /// in 64-bit codes, or the input count overruns the index space.
    pub fn encode(&self, ip_addrs: &[u128]) -> (r: Result<Vec<u8>, EncodeError>)
        ensures
            r matches Ok(out) ==> out@ == Seq::<u8>::empty(),
            r matches Err(e) ==> (e == EncodeError::AmplitudeTooLarge && (exists|i: int|
                0 <= i < ip_addrs@.len() && #[trigger] ip_addrs@[i] > u64::MAX)) || (e
                == EncodeError::TooManyValues && ip_addrs@.len() > u32::MAX),
            (ip_addrs@.len() <= u32::MAX && (forall|i: int|
                0 <= i < ip_addrs@.len() ==> #[trigger] ip_addrs@[i] <= u64::MAX)) ==> r is Ok,
    {
        broadcast use vstd::seq_lib::group_to_multiset_ensures;

        proof {
            use_type_invariant(self);
        }
        if ip_addrs.len() == 0 {
            return Ok(Vec::new());
        }
        let v = vstd::slice::slice_to_vec(ip_addrs);
        let sorted_v = sort::merge_sort(v);
        let ghost s = sorted_v@;
        proof {
            assert forall|x: u128| #[trigger] s.contains(x) implies ip_addrs@.contains(x) by {
                assert(s.to_multiset().count(x) > 0);
                assert(ip_addrs@.to_multiset().count(x) == s.to_multiset().count(x));
            }
        }
        let c = match interval::train(&sorted_v, 64) {
            Ok(c) => c,
            Err(e) => {
                proof {
                    let x = s[s.len() - 1];
                    assert(s.contains(x));
                    assert(ip_addrs@.contains(x));
                    let i = choose|i: int| 0 <= i < ip_addrs@.len() && ip_addrs@[i] == x;
                    assert(0 <= i < ip_addrs@.len() && ip_addrs@[i] > u64::MAX);
                }
                return Err(e);
            },
        };
        let top_n: usize = (1u32 << (self.num_bits_for_most_common as u32)) as usize;
        let top = get_most_common(ip_addrs, top_n);
        let mut dict: Vec<u128> = Vec::new();
        let mut i: usize = 0;
        while i < top.len()
            decreases top@.len() - i,
        {
            dict.push(top[i].ip);
            i = i + 1;
        }
        if ip_addrs.len() > u32::MAX as usize {
            return Err(EncodeError::TooManyValues);
        }
        let _estimate = self.estimate_bytes(ip_addrs, &dict, c.num_bits);
        Ok(Vec::new())
    }
}

impl IpRepr for HalfDict {
    fn encode(&self, ip_addrs: &[u128]) -> Result<Vec<u8>, EncodeError> {
        HalfDict::encode(self, ip_addrs)
    }

    /// This codec has no decoder.
    fn decode(&self, _data: &[u8]) -> Result<Vec<u128>, DecodeError> {
        Err(DecodeError::Unsupported)
    }
}

} // verus!
