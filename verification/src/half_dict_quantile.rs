//! The dictionary-remap codec: the most frequent values become small
//! ordinals, every other value is shifted up by the dictionary size, and
//! the remapped sequence goes through a quantile compressor. The stream
//! is the dictionary size as four little-endian bytes, the dictionary
//! values as big-endian 128-bit words in ordinal order, and the inner
//! payload.

use vstd::arithmetic::div_mod::lemma_div_denominator;
use vstd::prelude::*;

use crate::half_dict::in_dict;
use crate::interval::lemma_prefix_of_suffix;
use crate::{beats, get_most_common, DecodeError, EncodeError, IPWithCount, IpRepr};

verus! {

#[verifier::external_type_specification]
#[verifier::external_body]
pub struct ExQCompressError(q_compress::errors::QCompressError);

/// The bytes the quantile compressor emits for `nums` at `level`.
pub uninterp spec fn qc_bytes(nums: Seq<u128>, level: usize) -> Seq<u8>;

/// Whether the quantile decompressor accepts the byte stream `data`:
/// acceptance is a function of the bytes alone.
pub uninterp spec fn qc_ok(data: Seq<u8>) -> bool;

/// Relies on q_compress::auto_compress: the output bytes depend only on
/// the numbers and the compression level; levels up to 12 are accepted.
/// The input must not be empty: the level probe unwraps its first chunk,
/// which errors on an empty slice.
#[verifier::external_body]
fn qc_compress(nums: &Vec<u128>, level: usize) -> (r: Vec<u8>)
    requires
        nums@.len() >= 1,
        level <= 12,
    ensures
        r@ == qc_bytes(nums@, level),
{
    q_compress::auto_compress(nums.as_slice(), level)
}

/// Relies on q_compress::auto_decompress: a deterministic reader, so
/// whether it accepts a stream depends on the bytes alone, and when it
/// accepts the bytes that compression produced, it returns exactly the
/// compressed numbers. Rejection is surfaced, not ruled out: the reader
/// was observed to refuse one of the compressor's own streams, so the
/// contract does not promise acceptance.
#[verifier::external_body]
fn qc_decompress(data: &[u8]) -> (r: Result<Vec<u128>, q_compress::errors::QCompressError>)
    ensures
        r is Ok <==> qc_ok(data@),
        forall|nums: Seq<u128>, level: usize|
            #![trigger qc_bytes(nums, level)]
            data@ == qc_bytes(nums, level) && r is Ok ==> r->Ok_0@ == nums,
{
    q_compress::auto_decompress(data)
}

/// 256 raised to `k`: the weight of the `k`-th byte.
pub open spec fn pow256(k: nat) -> nat
    decreases k,
{
    if k == 0 {
        1nat
    } else {
        256 * pow256((k - 1) as nat)
    }
}

/// A 32-bit count as four little-endian bytes.
pub open spec fn u32_le_bytes(n: u32) -> Seq<u8> {
    seq![
        (n % 256) as u8,
        ((n / 256) % 256) as u8,
        ((n / 65536) % 256) as u8,
        ((n / 16777216) % 256) as u8,
    ]
}

/// The value of four little-endian bytes.
pub open spec fn u32_le_val(s: Seq<u8>) -> int {
    s[0] + 256 * (s[1] as int) + 65536 * (s[2] as int) + 16777216 * (s[3] as int)
}

proof fn lemma_u32_le_round_trip(n: u32)
    ensures
        u32_le_val(u32_le_bytes(n)) == n,
{
    assert(n % 256 + 256 * ((n / 256) % 256) + 65536 * ((n / 65536) % 256) + 16777216 * ((n
        / 16777216) % 256) == n) by (bit_vector);
}

/// A 128-bit value as sixteen big-endian bytes.
pub open spec fn u128_be_bytes(v: u128) -> Seq<u8> {
    Seq::new(16, |j: int| (((v as nat) / pow256((15 - j) as nat)) % 256) as u8)
}

/// The value of a big-endian byte string.
pub open spec fn be_val(s: Seq<u8>) -> int
    decreases s.len(),
{
    if s.len() == 0 {
        0int
    } else {
        256 * be_val(s.drop_last()) + s.last()
    }
}

proof fn lemma_pow256_pos(k: nat)
    ensures
        pow256(k) >= 1,
    decreases k,
{
    if k > 0 {
        lemma_pow256_pos((k - 1) as nat);
    }
}

proof fn lemma_u128_lt_pow256_16(v: u128)
    ensures
        (v as nat) < pow256(16),
{
    reveal_with_fuel(pow256, 17);
}

/// Reading the big-endian bytes of `v` from the left accumulates the
/// high quotients of `v`: after `k` bytes the value seen is `v` shifted
/// down by the remaining bytes.
proof fn lemma_be_prefix(v: u128, k: int)
    requires
        0 <= k <= 16,
    ensures
        be_val(u128_be_bytes(v).subrange(0, k)) == (v as nat) / pow256((16 - k) as nat),
    decreases k,
{
    let s = u128_be_bytes(v);
    if k == 0 {
        assert(s.subrange(0, 0) =~= Seq::<u8>::empty());
        lemma_u128_lt_pow256_16(v);
        assert(pow256(16) >= 1);
        assert((v as nat) / pow256(16) == 0) by (nonlinear_arith)
            requires
                (v as nat) < pow256(16),
                pow256(16) >= 1,
        ;
    } else {
        lemma_be_prefix(v, k - 1);
        let p = s.subrange(0, k);
        assert(p.drop_last() =~= s.subrange(0, k - 1));
        assert(p.last() == s[k - 1]);
        let w = (16 - k) as nat;
        lemma_pow256_pos(w);
        // v / 256^w relates to v / 256^(w+1) by one more base-256 digit.
        lemma_div_denominator(v as int, pow256(w) as int, 256);
        assert(pow256(w + 1) == 256 * pow256(w));
        assert(pow256(w) * 256 == 256 * pow256(w)) by (nonlinear_arith);
        let q = (v as nat) / pow256(w);
        assert(((v as nat) / pow256(w)) as int / 256 == (v as nat) as int / (pow256(w) as int
            * 256));
        assert(s[k - 1] == (q % 256) as u8);
        assert(q == 256 * (q / 256) + q % 256) by (nonlinear_arith);
    }
}

proof fn lemma_be_round_trip(v: u128)
    ensures
        be_val(u128_be_bytes(v)) == v,
{
    lemma_be_prefix(v, 16);
    assert(u128_be_bytes(v).subrange(0, 16) =~= u128_be_bytes(v));
    assert(pow256(0) == 1);
    assert(be_val(u128_be_bytes(v)) == (v as nat) / pow256(0));
    assert((v as nat) / 1 == v as nat);
}

/// Appends the four little-endian bytes of `n`.
fn push_u32_le(out: &mut Vec<u8>, n: u32)
    ensures
        final(out)@ == old(out)@ + u32_le_bytes(n),
{
    out.push((n % 256) as u8);
    out.push(((n / 256) % 256) as u8);
    out.push(((n / 65536) % 256) as u8);
    out.push(((n / 16777216) % 256) as u8);
    proof {
        assert(final(out)@ =~= old(out)@ + u32_le_bytes(n));
    }
}

/// Reads four little-endian bytes as their 32-bit value.
fn read_u32_le(data: &[u8], pos: usize) -> (r: u32)
    requires
        pos + 4 <= data@.len(),
    ensures
        r as int == u32_le_val(data@.subrange(pos as int, pos + 4)),
{
    let b0 = data[pos] as u32;
    let b1 = data[pos + 1] as u32;
    let b2 = data[pos + 2] as u32;
    let b3 = data[pos + 3] as u32;
    b0 + 256 * b1 + 65536 * b2 + 16777216 * b3
}

/// Appends the sixteen big-endian bytes of `v`.
#[verifier::loop_isolation(false)]
fn push_u128_be(out: &mut Vec<u8>, v: u128)
    ensures
        final(out)@ == old(out)@ + u128_be_bytes(v),
{
    let ghost base = out@;
    let mut j: usize = 0;
    while j < 16
        invariant
            j <= 16,
            out@ == base + u128_be_bytes(v).subrange(0, j as int),
        decreases 16 - j,
    {
        let shift_bytes: u32 = 15 - (j as u32);
        let divisor = pow256_exec(shift_bytes);
        let b = ((v / divisor) % 256) as u8;
        out.push(b);
        proof {
            assert(u128_be_bytes(v).subrange(0, j + 1) =~= u128_be_bytes(v).subrange(
                0,
                j as int,
            ).push(u128_be_bytes(v)[j as int]));
            assert(u128_be_bytes(v)[j as int] == b);
            assert(out@ =~= base + u128_be_bytes(v).subrange(0, j + 1));
        }
        j = j + 1;
    }
    proof {
        assert(u128_be_bytes(v).subrange(0, 16) =~= u128_be_bytes(v));
    }
}

/// Computes 256 to the power `k` for `k` at most 15.
fn pow256_exec(k: u32) -> (r: u128)
    requires
        k <= 15,
    ensures
        r as nat == pow256(k as nat),
        r >= 1,
{
    let mut r: u128 = 1;
    let mut t: u32 = 0;
    while t < k
        invariant
            t <= k <= 15,
            r as nat == pow256(t as nat),
            1 <= r,
        decreases k - t,
    {
        proof {
            lemma_pow256_15_bound(t as nat);
        }
        r = r * 256;
        t = t + 1;
    }
    r
}

proof fn lemma_pow256_15_bound(t: nat)
    requires
        t <= 14,
    ensures
        pow256(t) * 256 <= u128::MAX,
        pow256(t + 1) == pow256(t) * 256,
{
    reveal_with_fuel(pow256, 16);
    lemma_pow256_monotone(t, 14);
    assert(pow256(t + 1) == 256 * pow256(t));
}

proof fn lemma_pow256_monotone(a: nat, b: nat)
    requires
        a <= b,
    ensures
        pow256(a) <= pow256(b),
    decreases b,
{
    if a < b {
        lemma_pow256_monotone(a, (b - 1) as nat);
        lemma_pow256_pos((b - 1) as nat);
    }
}

/// Reads sixteen big-endian bytes as their 128-bit value.
#[verifier::loop_isolation(false)]
fn read_u128_be(data: &[u8], pos: usize) -> (r: u128)
    requires
        pos + 16 <= data@.len(),
    ensures
        r as int == be_val(data@.subrange(pos as int, pos + 16)),
{
    let dlen = data.len();
    let s16 = Ghost(data@.subrange(pos as int, pos + 16));
    let mut r: u128 = 0;
    let mut j: usize = 0;
    while j < 16
        invariant
            j <= 16,
            r as int == be_val(s16@.subrange(0, j as int)),
            (r as nat) < pow256(j as nat),
        decreases 16 - j,
    {
        let b = data[pos + j];
        proof {
            assert(s16@.subrange(0, j + 1).drop_last() =~= s16@.subrange(0, j as int));
            assert(s16@.subrange(0, j + 1).last() == s16@[j as int]);
            assert(s16@[j as int] == data@[pos + j]);
            lemma_pow256_pos(j as nat);
            assert(pow256((j + 1) as nat) == 256 * pow256(j as nat));
            assert(256 * (r as nat) + 256 <= 256 * pow256(j as nat)) by (nonlinear_arith)
                requires
                    (r as nat) < pow256(j as nat),
            ;
            reveal_with_fuel(pow256, 17);
            lemma_pow256_monotone((j + 1) as nat, 16);
        }
        r = r * 256 + (b as u128);
        j = j + 1;
    }
    proof {
        assert(s16@.subrange(0, 16) =~= s16@);
    }
    r
}

/// The position of `x` in the dictionary, or -1 when absent.
pub open spec fn dict_index(dict: Seq<u128>, x: u128) -> int
    decreases dict.len(),
{
    if dict.len() == 0 {
        -1
    } else if dict[0] == x {
        0
    } else {
        let r = dict_index(dict.drop_first(), x);
        if r == -1 {
            -1
        } else {
            r + 1
        }
    }
}

/// The remapped image of one value: its ordinal when it is in the
/// dictionary, else the value shifted up by the dictionary size.
pub open spec fn remap_one(dict: Seq<u128>, x: u128) -> int {
    let k = dict_index(dict, x);
    if k >= 0 {
        k
    } else {
        x + dict.len()
    }
}

/// The remapped sequence, element for element.
pub open spec fn remap(dict: Seq<u128>, xs: Seq<u128>) -> Seq<u128> {
    Seq::new(xs.len(), |i: int| remap_one(dict, xs[i]) as u128)
}

/// The dictionary values in ordinal order, each as sixteen bytes.
pub open spec fn dict_values_bytes(dict: Seq<u128>) -> Seq<u8>
    decreases dict.len(),
{
    if dict.len() == 0 {
        Seq::<u8>::empty()
    } else {
        u128_be_bytes(dict[0]) + dict_values_bytes(dict.drop_first())
    }
}

/// The whole stream: dictionary size, dictionary, inner payload.
pub open spec fn hdq_container(dict: Seq<u128>, xs: Seq<u128>, level: usize) -> Seq<u8> {
    u32_le_bytes(dict.len() as u32) + dict_values_bytes(dict) + qc_bytes(remap(dict, xs), level)
}

/// The dictionary soundly remaps `xs`: its values are distinct, its size
/// fits the header field, and no shifted value overflows 128 bits.
pub open spec fn hdq_valid(dict: Seq<u128>, xs: Seq<u128>) -> bool {
    &&& dict.len() <= u32::MAX
    &&& (forall|u: int, w: int| 0 <= u < w < dict.len() ==> dict[u] != dict[w])
    &&& (forall|i: int|
        0 <= i < xs.len() && dict_index(dict, #[trigger] xs[i]) == -1 ==> xs[i] + dict.len()
            <= u128::MAX)
}

/// `data` is a dictionary-remap stream that decodes exactly to `xs`.
pub open spec fn is_hdq_container_for(data: Seq<u8>, xs: Seq<u128>) -> bool {
    if xs.len() == 0 {
        data.len() == 0
    } else {
        exists|dict: Seq<u128>, level: usize|
            hdq_valid(dict, xs) && data == hdq_container(dict, xs, level)
    }
}

/// The value `x` together with its multiplicity in `xs`.
pub open spec fn count_entry(xs: Seq<u128>, x: u128) -> IPWithCount {
    IPWithCount { ip: x, count: xs.to_multiset().count(x) as usize }
}

/// `dict` is the most-common table of `xs` capped at `top_n` values:
/// ranked strictly by `beats` (frequency descending, ties to the smaller
/// value), every entry occurring in `xs`, and any value left out ranking
/// below the last entry kept. Exactly one sequence satisfies this.
pub open spec fn dict_is_top(dict: Seq<u128>, xs: Seq<u128>, top_n: int) -> bool {
    &&& dict.len() <= top_n
    &&& (forall|u: int, w: int|
        0 <= u < w < dict.len() ==> beats(count_entry(xs, dict[u]), count_entry(xs, dict[w])))
    &&& (forall|u: int| 0 <= u < dict.len() ==> xs.to_multiset().count(#[trigger] dict[u]) >= 1)
    &&& (forall|x: u128|
        xs.contains(x) && !in_dict(dict, x) ==> dict.len() == top_n && (dict.len() > 0 ==> beats(
            count_entry(xs, dict[dict.len() - 1]),
            count_entry(xs, x),
        )))
}

/// Entries of a ranked table carry distinct values: equal values would
/// give equal entries, which the strict ranking forbids.
proof fn lemma_dict_is_top_distinct(dict: Seq<u128>, xs: Seq<u128>, top_n: int)
    requires
        dict_is_top(dict, xs, top_n),
    ensures
        forall|u: int, w: int| 0 <= u < w < dict.len() ==> dict[u] != dict[w],
{
    assert forall|u: int, w: int| 0 <= u < w < dict.len() implies dict[u] != dict[w] by {
        assert(beats(count_entry(xs, dict[u]), count_entry(xs, dict[w])));
    }
}

/// Two tables that both satisfy `dict_is_top` agree position by
/// position up to the given index.
proof fn lemma_dict_is_top_agree(
    d1: Seq<u128>,
    d2: Seq<u128>,
    xs: Seq<u128>,
    top_n: int,
    j: int,
)
    requires
        dict_is_top(d1, xs, top_n),
        dict_is_top(d2, xs, top_n),
        0 <= j < d1.len(),
        j < d2.len(),
    ensures
        forall|i: int| 0 <= i <= j ==> d1[i] == d2[i],
    decreases j,
{
    broadcast use vstd::seq_lib::group_to_multiset_ensures;

    lemma_dict_is_top_distinct(d1, xs, top_n);
    lemma_dict_is_top_distinct(d2, xs, top_n);
    if j > 0 {
        lemma_dict_is_top_agree(d1, d2, xs, top_n, j - 1);
    }
    // d1[j] occurs in xs, so leaving it out of d2 would rank it below
    // d2's last entry, while d2 ranks it above -- and vice versa.
    assert(xs.to_multiset().count(d1[j]) >= 1);
    assert(xs.contains(d1[j]));
    assert(xs.to_multiset().count(d2[j]) >= 1);
    assert(xs.contains(d2[j]));
    if !in_dict(d2, d1[j]) {
        assert(beats(count_entry(xs, d2[d2.len() - 1]), count_entry(xs, d1[j])));
        if j < d2.len() - 1 {
            assert(beats(count_entry(xs, d2[j]), count_entry(xs, d2[d2.len() - 1])));
        }
        assert(beats(count_entry(xs, d2[j]), count_entry(xs, d1[j])));
        if !in_dict(d1, d2[j]) {
            assert(beats(count_entry(xs, d1[d1.len() - 1]), count_entry(xs, d2[j])));
            if j < d1.len() - 1 {
                assert(beats(count_entry(xs, d1[j]), count_entry(xs, d1[d1.len() - 1])));
            }
            assert(beats(count_entry(xs, d1[j]), count_entry(xs, d2[j])));
            assert(false);
        } else {
            let v = choose|v: int| 0 <= v < d1.len() && d1[v] == d2[j];
            assert(v != j);
            if v < j {
                assert(d1[v] == d2[v]);
            } else {
                assert(beats(count_entry(xs, d1[j]), count_entry(xs, d1[v])));
                assert(false);
            }
            assert(false);
        }
    } else {
        let w = choose|w: int| 0 <= w < d2.len() && d2[w] == d1[j];
        if w < j {
            assert(d2[w] == d1[w]);
            assert(false);
        } else if w > j {
            // then d2[j] must sit in d1 at j as well
            if !in_dict(d1, d2[j]) {
                assert(beats(count_entry(xs, d1[d1.len() - 1]), count_entry(xs, d2[j])));
                if j < d1.len() - 1 {
                    assert(beats(count_entry(xs, d1[j]), count_entry(xs, d1[d1.len() - 1])));
                }
                assert(beats(count_entry(xs, d1[j]), count_entry(xs, d2[j])));
                assert(beats(count_entry(xs, d2[j]), count_entry(xs, d2[w])));
                assert(false);
            } else {
                let v = choose|v: int| 0 <= v < d1.len() && d1[v] == d2[j];
                if v < j {
                    assert(d1[v] == d2[v]);
                    assert(false);
                } else if v > j {
                    assert(beats(count_entry(xs, d1[j]), count_entry(xs, d1[v])));
                    assert(beats(count_entry(xs, d2[j]), count_entry(xs, d2[w])));
                    assert(false);
                } else {
                    assert(d1[j] == d2[j]);
                }
            }
        } else {
            assert(d1[j] == d2[j]);
        }
    }
}

/// Exactly one table satisfies `dict_is_top`: together with the
/// encoder's contract this pins the dictionary, and with it the whole
/// stream, as a function of the input and the configured size.
pub proof fn lemma_dict_is_top_unique(d1: Seq<u128>, d2: Seq<u128>, xs: Seq<u128>, top_n: int)
    requires
        dict_is_top(d1, xs, top_n),
        dict_is_top(d2, xs, top_n),
    ensures
        d1 == d2,
{
    broadcast use vstd::seq_lib::group_to_multiset_ensures;

    lemma_dict_is_top_distinct(d1, xs, top_n);
    lemma_dict_is_top_distinct(d2, xs, top_n);
    if d1.len() < d2.len() {
        let x = d2[d1.len() as int];
        assert(xs.to_multiset().count(x) >= 1);
        assert(xs.contains(x));
        if d1.len() > 0 {
            lemma_dict_is_top_agree(d1, d2, xs, top_n, d1.len() - 1);
        }
        assert(!in_dict(d1, x)) by {
            if in_dict(d1, x) {
                let v = choose|v: int| 0 <= v < d1.len() && d1[v] == x;
                assert(d1[v] == d2[v]);
                assert(d2[v] == d2[d1.len() as int]);
            }
        }
        assert(d1.len() == top_n);
        assert(d2.len() <= top_n);
        assert(false);
    } else if d2.len() < d1.len() {
        let x = d1[d2.len() as int];
        assert(xs.to_multiset().count(x) >= 1);
        assert(xs.contains(x));
        if d2.len() > 0 {
            lemma_dict_is_top_agree(d1, d2, xs, top_n, d2.len() - 1);
        }
        assert(!in_dict(d2, x)) by {
            if in_dict(d2, x) {
                let w = choose|w: int| 0 <= w < d2.len() && d2[w] == x;
                assert(d2[w] == d1[w]);
                assert(d1[w] == d1[d2.len() as int]);
            }
        }
        assert(d2.len() == top_n);
        assert(d1.len() <= top_n);
        assert(false);
    } else {
        if d1.len() > 0 {
            lemma_dict_is_top_agree(d1, d2, xs, top_n, d1.len() - 1);
        }
        assert(d1 =~= d2);
    }
}

/// The dictionary-remap codec, configured with the most-common-value
/// count it may spend on the dictionary.
#[derive(Debug)]
pub struct HalfDictQ {
    num_most_common: usize,
}

impl HalfDictQ {
    /// The dictionary size always fits the 32-bit header field.
    #[verifier::type_invariant]
    pub closed spec fn wf(self) -> bool {
        self.num_most_common <= u32::MAX
    }

    pub closed spec fn spec_num_most_common(self) -> usize {
        self.num_most_common
    }

    pub fn new(num_most_common: usize) -> (r: HalfDictQ)
        requires
            num_most_common <= u32::MAX,
        ensures
            r.spec_num_most_common() == num_most_common,
    {
        HalfDictQ { num_most_common }
    }

    /// Encodes by remapping through the most-common dictionary and
    /// handing the remapped values to the quantile compressor. Fails
    /// exactly when shifting some non-dictionary value past the
    /// dictionary would overflow 128 bits.
    #[verifier::rlimit(100)]
    #[verifier::spinoff_prover]
    pub fn encode(&self, ip_addrs: &[u128]) -> (r: Result<Vec<u8>, EncodeError>)
        ensures
            r matches Ok(out) ==> is_hdq_container_for(out@, ip_addrs@),
            ip_addrs@.len() > 0 ==> (r matches Ok(out) ==> exists|dict: Seq<u128>|
                #![trigger hdq_container(dict, ip_addrs@, 10usize)]
                hdq_valid(dict, ip_addrs@) && dict_is_top(
                    dict,
                    ip_addrs@,
                    self.spec_num_most_common() as int,
                ) && out@ == hdq_container(dict, ip_addrs@, 10usize)),
            r matches Err(e) ==> e == EncodeError::DictShiftOverflow && (exists|i: int|
                0 <= i < ip_addrs@.len() && (#[trigger] ip_addrs@[i]) as int
                    + self.spec_num_most_common() > u128::MAX),
    {
        proof {
            use_type_invariant(self);
        }
        if ip_addrs.len() == 0 {
            let out: Vec<u8> = Vec::new();
            return Ok(out);
        }
        let top = get_most_common(ip_addrs, self.num_most_common);
        let ghost tops = top@;
        proof {
            assert forall|u: int, w: int| 0 <= u < w < tops.len() implies tops[u].ip != tops[w].ip
                by {
                assert(beats(tops[u], tops[w]));
            }
        }
        let mut dict: Vec<u128> = Vec::new();
        let mut t: usize = 0;
        while t < top.len()
            invariant
                tops == top@,
                t <= tops.len(),
                dict@.len() == t,
                forall|u: int| 0 <= u < t ==> dict@[u] == tops[u].ip,
            decreases top@.len() - t,
        {
            dict.push(top[t].ip);
            t = t + 1;
        }
        proof {
            assert(forall|u: int, w: int| 0 <= u < w < dict@.len() ==> dict@[u] != dict@[w]);
        }
        let d = dict.len();
        let mut ys: Vec<u128> = Vec::new();
        let mut i: usize = 0;
        while i < ip_addrs.len()
            invariant
                self.wf(),
                d == dict@.len() <= self.spec_num_most_common(),
                i <= ip_addrs@.len(),
                ys@ == remap(dict@, ip_addrs@).subrange(0, i as int),
                forall|u: int, w: int| 0 <= u < w < dict@.len() ==> dict@[u] != dict@[w],
                forall|q: int|
                    0 <= q < i && dict_index(dict@, #[trigger] ip_addrs@[q]) == -1 ==> ip_addrs@[q]
                        + dict@.len() <= u128::MAX,
            decreases ip_addrs@.len() - i,
        {
            let x = ip_addrs[i];
            let found = find_dict_index(&dict, x);
            let y: u128 = match found {
                Some(k) => k as u128,
                None => {
                    if x > u128::MAX - (d as u128) {
                        proof {
                            assert(ip_addrs@[i as int] as int + self.spec_num_most_common()
                                > u128::MAX);
                        }
                        return Err(EncodeError::DictShiftOverflow);
                    }
                    x + (d as u128)
                },
            };
            ys.push(y);
            proof {
                lemma_dict_index_first(dict@, x);
                assert(y == remap(dict@, ip_addrs@)[i as int]);
                assert(ys@ =~= remap(dict@, ip_addrs@).subrange(0, i + 1));
            }
            i = i + 1;
        }
        proof {
            assert(ys@ =~= remap(dict@, ip_addrs@));
        }
        let payload = qc_compress(&ys, 10);
        let mut out: Vec<u8> = Vec::new();
        push_u32_le(&mut out, d as u32);
        let ghost head = out@;
        proof {
            assert(dict@.subrange(0, d as int) =~= dict@);
        }
        let mut j: usize = 0;
        while j < d
            invariant
                d == dict@.len(),
                j <= d,
                head == u32_le_bytes(d as u32),
                out@ + dict_values_bytes(dict@.subrange(j as int, d as int)) == head
                    + dict_values_bytes(dict@),
            decreases d - j,
        {
            let ghost rest = dict@.subrange(j as int, d as int);
            proof {
                assert(rest[0] == dict@[j as int]);
                assert(rest.drop_first() =~= dict@.subrange(j + 1, d as int));
            }
            push_u128_be(&mut out, dict[j]);
            proof {
                assert(out@ + dict_values_bytes(dict@.subrange(j + 1, d as int)) =~= head
                    + dict_values_bytes(dict@));
            }
            j = j + 1;
        }
        proof {
            assert(dict@.subrange(d as int, d as int) =~= Seq::<u128>::empty());
            assert(out@ =~= head + dict_values_bytes(dict@));
        }
        let mut k2: usize = 0;
        let ghost mid = out@;
        while k2 < payload.len()
            invariant
                k2 <= payload@.len(),
                out@ == mid + payload@.subrange(0, k2 as int),
            decreases payload@.len() - k2,
        {
            out.push(payload[k2]);
            proof {
                assert(payload@.subrange(0, k2 + 1) =~= payload@.subrange(0, k2 as int).push(
                    payload@[k2 as int],
                ));
                assert(out@ =~= mid + payload@.subrange(0, k2 + 1));
            }
            k2 = k2 + 1;
        }
        proof {
            assert(payload@.subrange(0, payload@.len() as int) =~= payload@);
            assert(out@ =~= hdq_container(dict@, ip_addrs@, 10));
            assert(hdq_valid(dict@, ip_addrs@));
            // The dictionary built here is exactly the most-common table.
            assert forall|u: int| 0 <= u < dict@.len() implies count_entry(
                ip_addrs@,
                #[trigger] dict@[u],
            ) == tops[u] by {
                assert(tops[u].count as int == ip_addrs@.to_multiset().count(tops[u].ip));
            }
            assert forall|u: int, w: int| 0 <= u < w < dict@.len() implies beats(
                count_entry(ip_addrs@, dict@[u]),
                count_entry(ip_addrs@, dict@[w]),
            ) by {
                assert(beats(tops[u], tops[w]));
            }
            assert forall|x: u128|
                ip_addrs@.contains(x) && !in_dict(dict@, x) implies dict@.len()
                == self.spec_num_most_common() as int && (dict@.len() > 0 ==> beats(
                count_entry(ip_addrs@, dict@[dict@.len() - 1]),
                count_entry(ip_addrs@, x),
            )) by {
                assert(!crate::holds_ip(tops, x)) by {
                    if crate::holds_ip(tops, x) {
                        let u = choose|u: int| 0 <= u < tops.len() && tops[u].ip == x;
                        assert(0 <= u < dict@.len());
                        assert(dict@[u] == tops[u].ip);
                        assert(dict@[u] == x);
                        assert(in_dict(dict@, x));
                    }
                }
                assert(count_entry(ip_addrs@, x) == (IPWithCount {
                    ip: x,
                    count: ip_addrs@.to_multiset().count(x) as usize,
                }));
            }
            assert(dict_is_top(dict@, ip_addrs@, self.spec_num_most_common() as int));
        }
        Ok(out)
    }

    /// Decodes the stream: for every sequence `vals`, if `data` is a
    /// dictionary-remap stream for `vals`, the result is exactly `vals`;
    /// the only other outcome is the inner decoder's own refusal of the
    /// payload, reported as such and never a silent misdecode.
    #[verifier::loop_isolation(false)]
    #[verifier::rlimit(100)]
    pub fn decode(&self, data: &[u8]) -> (r: Result<Vec<u128>, DecodeError>)
        ensures
            forall|vals: Seq<u128>|
                #[trigger] is_hdq_container_for(data@, vals) ==> match r {
                    Ok(out) => out@ == vals,
                    Err(e) => e == DecodeError::InnerCodec && !qc_ok(hdq_payload(data@, vals)),
                },
    {
        let data_len = data.len();
        if data_len == 0 {
            let out: Vec<u128> = Vec::new();
            proof {
                assert forall|vals: Seq<u128>| #[trigger]
                    is_hdq_container_for(data@, vals) implies out@ == vals by {
                    assert(vals.len() == 0);
                    assert(out@ =~= vals);
                }
            }
            return Ok(out);
        }
        if data_len < 4 {
            proof {
                lemma_hdq_shape(data@);
            }
            return Err(DecodeError::Truncated);
        }
        let d32 = read_u32_le(data, 0);
        proof {
            assert forall|vals: Seq<u128>| #[trigger]
                is_hdq_container_for(data@, vals) implies d32 as int == spec_dict_len(data@, vals)
                by {
                let (dict, level) = choose|dict: Seq<u128>, level: usize|
                    hdq_valid(dict, vals) && data@ == hdq_container(dict, vals, level);
                lemma_hdq_split(data@, dict, vals, level);
                lemma_u32_le_round_trip(dict.len() as u32);
            }
        }
        let d = d32 as usize;
        if (data_len - 4) / 16 < d {
            proof {
                assert forall|vals: Seq<u128>| #[trigger]
                    is_hdq_container_for(data@, vals) implies false by {
                    let (dict, level) = choose|dict: Seq<u128>, level: usize|
                        hdq_valid(dict, vals) && data@ == hdq_container(dict, vals, level);
                    lemma_hdq_split(data@, dict, vals, level);
                    lemma_u32_le_round_trip(dict.len() as u32);
                }
            }
            return Err(DecodeError::Truncated);
        }
        proof {
            assert((d as int) * 16 <= data@.len() - 4) by (nonlinear_arith)
                requires
                    d <= (data@.len() - 4) / 16,
                    data@.len() >= 4,
            ;
        }
        let dict = parse_dict(data, d);
        proof {
            assert forall|vals: Seq<u128>| #[trigger]
                is_hdq_container_for(data@, vals) implies dict_prefix_ok(data@, vals, dict@) by {
                assert forall|dw: Seq<u128>, level: usize|
                    #![trigger hdq_container(dw, vals, level)]
                    (hdq_valid(dw, vals) && data@ == hdq_container(dw, vals, level)) implies (
                dict@.len() <= dw.len() && dict@ == dw.subrange(0, dict@.len() as int)) by {
                    lemma_hdq_split(data@, dw, vals, level);
                    lemma_u32_le_round_trip(dw.len() as u32);
                    assert forall|jj: int| 0 <= jj < d implies dict@[jj] == dw[jj] by {
                        lemma_dict_value_at(data@, dw, vals, level, jj);
                        lemma_be_round_trip(dw[jj]);
                    }
                    assert(dict@ =~= dw.subrange(0, dict@.len() as int));
                }
            }
        }
        let payload = vstd::slice::slice_subrange(data, 4 + d * 16, data_len);
        let inner = qc_decompress(payload);
        proof {
            assert forall|vals: Seq<u128>| #[trigger]
                is_hdq_container_for(data@, vals) && inner is Ok implies inner->Ok_0@ == remap(
                dict@,
                vals,
            ) by {
                let (dw, level) = choose|dw: Seq<u128>, level: usize|
                    hdq_valid(dw, vals) && data@ == hdq_container(dw, vals, level);
                lemma_hdq_split(data@, dw, vals, level);
                lemma_u32_le_round_trip(dw.len() as u32);
                assert(dict@ == dw.subrange(0, dict@.len() as int));
                assert(dict@ =~= dw);
                assert(payload@ == qc_bytes(remap(dw, vals), level));
            }
        }
        let ys = match inner {
            Ok(v) => v,
            Err(_) => {
                proof {
                    assert forall|vals: Seq<u128>| #[trigger]
                        is_hdq_container_for(data@, vals) implies !qc_ok(
                        hdq_payload(data@, vals),
                    ) by {
                        let (dict, level) = choose|dict: Seq<u128>, level: usize|
                            hdq_valid(dict, vals) && data@ == hdq_container(dict, vals, level);
                        lemma_hdq_split(data@, dict, vals, level);
                        lemma_u32_le_round_trip(dict.len() as u32);
                        assert(d == spec_dict_len(data@, vals));
                        assert(payload@ == hdq_payload(data@, vals));
                        assert(!qc_ok(payload@));
                    }
                }
                return Err(DecodeError::InnerCodec);
            },
        };
        let out = unmap_values(&dict, &ys);
        proof {
            assert forall|vals: Seq<u128>| #[trigger]
                is_hdq_container_for(data@, vals) implies out@ == vals by {
                let (dw, level) = choose|dw: Seq<u128>, level: usize|
                    hdq_valid(dw, vals) && data@ == hdq_container(dw, vals, level);
                lemma_hdq_split(data@, dw, vals, level);
                lemma_u32_le_round_trip(dw.len() as u32);
                assert(dict@ == dw.subrange(0, dict@.len() as int));
                assert(dict@ =~= dw);
                assert(ys@ == remap(dw, vals));
                assert forall|i: int| 0 <= i < vals.len() implies out@[i] == vals[i] by {
                    lemma_remap_unmap(dw, vals[i]);
                    assert(ys@[i] == remap(dw, vals)[i]);
                }
                assert(out@ =~= vals);
            }
        }
        Ok(out)
    }
}

/// The dictionary size a container hypothesis announces in its header.
pub open spec fn spec_dict_len(data: Seq<u8>, vals: Seq<u128>) -> int {
    let (dict, level) = choose|dict: Seq<u128>, level: usize|
        hdq_valid(dict, vals) && data == hdq_container(dict, vals, level);
    dict.len() as int
}

/// The inner payload a container hypothesis places after the dictionary.
pub open spec fn hdq_payload(data: Seq<u8>, vals: Seq<u128>) -> Seq<u8> {
    data.subrange(4 + 16 * spec_dict_len(data, vals), data.len() as int)
}

/// The parsed dictionary prefix agrees with every container hypothesis.
pub open spec fn dict_prefix_ok(data: Seq<u8>, vals: Seq<u128>, parsed: Seq<u128>) -> bool {
    forall|dict: Seq<u128>, level: usize|
        #![trigger hdq_container(dict, vals, level)]
        (hdq_valid(dict, vals) && data == hdq_container(dict, vals, level)) ==> (parsed.len()
            <= dict.len() && parsed == dict.subrange(0, parsed.len() as int))
}

/// No dictionary-remap stream is shorter than its four-byte size field.
proof fn lemma_hdq_shape(data: Seq<u8>)
    requires
        data.len() >= 1,
        data.len() < 4,
    ensures
        forall|vals: Seq<u128>| !is_hdq_container_for(data, vals),
{
    assert forall|vals: Seq<u128>| !is_hdq_container_for(data, vals) by {
        if is_hdq_container_for(data, vals) {
            if vals.len() == 0 {
            } else {
                let (dict, level) = choose|dict: Seq<u128>, level: usize|
                    hdq_valid(dict, vals) && data == hdq_container(dict, vals, level);
                assert(data.len() >= u32_le_bytes(dict.len() as u32).len());
            }
        }
    }
}

/// Each dictionary record takes sixteen bytes.
proof fn lemma_dvb_len(dict: Seq<u128>)
    ensures
        dict_values_bytes(dict).len() == 16 * dict.len(),
    decreases dict.len(),
{
    if dict.len() > 0 {
        lemma_dvb_len(dict.drop_first());
    }
}

/// Splits a container into its size field, dictionary bytes and payload.
proof fn lemma_hdq_split(data: Seq<u8>, dict: Seq<u128>, vals: Seq<u128>, level: usize)
    requires
        hdq_valid(dict, vals),
        data == hdq_container(dict, vals, level),
    ensures
        data.len() >= 4 + 16 * dict.len(),
        data.subrange(0, 4) == u32_le_bytes(dict.len() as u32),
        data.subrange(4, 4 + 16 * (dict.len() as int)) == dict_values_bytes(dict),
        data.subrange(4 + 16 * (dict.len() as int), data.len() as int) == qc_bytes(
            remap(dict, vals),
            level,
        ),
        u32_le_val(data.subrange(0, 4)) == dict.len(),
{
    lemma_dvb_len(dict);
    let head = u32_le_bytes(dict.len() as u32);
    let mid = dict_values_bytes(dict);
    let tail = qc_bytes(remap(dict, vals), level);
    assert(data.subrange(0, data.len() as int) =~= data);
    assert(data =~= head + (mid + tail));
    lemma_prefix_of_suffix(data, 0, head, mid + tail);
    lemma_prefix_of_suffix(data, 4, mid, tail);
    lemma_u32_le_round_trip(dict.len() as u32);
}

/// The bytes of the `j`-th dictionary value inside the stream.
proof fn lemma_dict_value_at(
    data: Seq<u8>,
    dict: Seq<u128>,
    vals: Seq<u128>,
    level: usize,
    j: int,
)
    requires
        hdq_valid(dict, vals),
        data == hdq_container(dict, vals, level),
        0 <= j < dict.len(),
    ensures
        data.subrange(4 + 16 * j, 4 + 16 * j + 16) == u128_be_bytes(dict[j]),
    decreases j,
{
    lemma_hdq_split(data, dict, vals, level);
    lemma_dict_value_in_dvb(dict, j);
    let mid = dict_values_bytes(dict);
    assert forall|q: int| 0 <= q < 16 implies data.subrange(4 + 16 * j, 4 + 16 * j + 16)[q]
        == u128_be_bytes(dict[j])[q] by {
        assert(data.subrange(4, 4 + 16 * (dict.len() as int))[16 * j + q] == mid[16 * j + q]);
        assert(data[4 + 16 * j + q] == mid[16 * j + q]);
        assert(mid.subrange(16 * j, 16 * j + 16)[q] == mid[16 * j + q]);
    }
    assert(data.subrange(4 + 16 * j, 4 + 16 * j + 16) =~= u128_be_bytes(dict[j]));
}

/// Inside the dictionary bytes, record `j` is the `j`-th value.
proof fn lemma_dict_value_in_dvb(dict: Seq<u128>, j: int)
    requires
        0 <= j < dict.len(),
    ensures
        dict_values_bytes(dict).subrange(16 * j, 16 * j + 16) == u128_be_bytes(dict[j]),
    decreases j,
{
    lemma_dvb_len(dict);
    let mid = dict_values_bytes(dict);
    if j == 0 {
        assert(mid =~= u128_be_bytes(dict[0]) + dict_values_bytes(dict.drop_first()));
        assert(mid.subrange(0, 16) =~= u128_be_bytes(dict[0]));
    } else {
        lemma_dict_value_in_dvb(dict.drop_first(), j - 1);
        lemma_dvb_len(dict.drop_first());
        let rest = dict_values_bytes(dict.drop_first());
        assert(mid =~= u128_be_bytes(dict[0]) + rest);
        assert(dict.drop_first()[j - 1] == dict[j]);
        assert(mid.subrange(16 * j, 16 * j + 16) =~= rest.subrange(16 * (j - 1), 16 * (j - 1)
            + 16));
    }
}

/// Scans the dictionary for `x`, returning its ordinal when present.
fn find_dict_index(dict: &Vec<u128>, x: u128) -> (r: Option<usize>)
    ensures
        match r {
            Some(k) => k as int == dict_index(dict@, x),
            None => dict_index(dict@, x) == -1,
        },
{
    proof {
        lemma_dict_index_first(dict@, x);
    }
    let mut k: usize = 0;
    while k < dict.len()
        invariant
            k <= dict@.len(),
            forall|j: int| 0 <= j < k ==> dict@[j] != x,
        decreases dict@.len() - k,
    {
        if dict[k] == x {
            proof {
                lemma_dict_index_first(dict@, x);
            }
            return Some(k);
        }
        k = k + 1;
    }
    proof {
        lemma_dict_index_first(dict@, x);
    }
    None
}

/// `dict_index` is the first occurrence of `x`.
pub proof fn lemma_dict_index_first(dict: Seq<u128>, x: u128)
    ensures
        -1 <= dict_index(dict, x) < dict.len(),
        dict_index(dict, x) >= 0 ==> dict[dict_index(dict, x)] == x && (forall|j: int|
            0 <= j < dict_index(dict, x) ==> dict[j] != x),
        dict_index(dict, x) == -1 ==> (forall|j: int| 0 <= j < dict.len() ==> dict[j] != x),
    decreases dict.len(),
{
    if dict.len() > 0 && dict[0] != x {
        let df = dict.drop_first();
        lemma_dict_index_first(df, x);
        assert(forall|j: int| 0 <= j < df.len() ==> #[trigger] df[j] == dict[j + 1]);
        if dict_index(df, x) == -1 {
            assert forall|j: int| 0 <= j < dict.len() implies dict[j] != x by {
                if j > 0 {
                    assert(df[j - 1] != x);
                }
            }
        } else {
            let rr = dict_index(df, x);
            assert(df[rr] == dict[rr + 1]);
            assert forall|j: int| 0 <= j < rr + 1 implies dict[j] != x by {
                if j > 0 {
                    assert(df[j - 1] != x);
                }
            }
        }
    }
}


/// The inverse of the remap: small codes are dictionary ordinals, the
/// rest are shifted back down by the dictionary size.
pub open spec fn unmap_one(dict: Seq<u128>, y: u128) -> int {
    if (y as int) < dict.len() {
        dict[y as int] as int
    } else {
        y - dict.len()
    }
}

/// Unmapping undoes the remapping of any value the dictionary soundly
/// covers.
pub proof fn lemma_remap_unmap(dict: Seq<u128>, x: u128)
    requires
        dict.len() <= u32::MAX,
        dict_index(dict, x) == -1 ==> x + dict.len() <= u128::MAX,
    ensures
        unmap_one(dict, remap_one(dict, x) as u128) == x,
{
    lemma_dict_index_first(dict, x);
}

/// Reads the `d` dictionary values out of the stream.
#[verifier::loop_isolation(false)]
fn parse_dict(data: &[u8], d: usize) -> (r: Vec<u128>)
    requires
        4 + (d as int) * 16 <= data@.len(),
    ensures
        r@.len() == d,
        forall|j: int|
            0 <= j < d ==> (#[trigger] r@[j]) as int == be_val(
                data@.subrange(4 + 16 * j, 4 + 16 * j + 16),
            ),
{
    let dlen = data.len();
    let mut r: Vec<u128> = Vec::new();
    let mut j: usize = 0;
    while j < d
        invariant
            r@.len() == j <= d,
            dlen == data@.len(),
            forall|q: int|
                0 <= q < j ==> (#[trigger] r@[q]) as int == be_val(
                    data@.subrange(4 + 16 * q, 4 + 16 * q + 16),
                ),
        decreases d - j,
    {
        proof {
            assert((j as int) * 16 + 16 <= (d as int) * 16) by (nonlinear_arith)
                requires
                    j + 1 <= d,
            ;
        }
        let v = read_u128_be(data, 4 + j * 16);
        r.push(v);
        j = j + 1;
    }
    r
}

/// Applies the inverse remap to every inner value.
#[verifier::loop_isolation(false)]
fn unmap_values(dict: &Vec<u128>, ys: &Vec<u128>) -> (r: Vec<u128>)
    ensures
        r@.len() == ys@.len(),
        forall|i: int|
            0 <= i < ys@.len() ==> (#[trigger] r@[i]) as int == unmap_one(dict@, ys@[i]),
{
    let mut r: Vec<u128> = Vec::new();
    let mut i: usize = 0;
    while i < ys.len()
        invariant
            r@.len() == i <= ys@.len(),
            forall|q: int|
                0 <= q < i ==> (#[trigger] r@[q]) as int == unmap_one(dict@, ys@[q]),
        decreases ys@.len() - i,
    {
        let y = ys[i];
        let val: u128 = if y < dict.len() as u128 {
            dict[y as usize]
        } else {
            y - (dict.len() as u128)
        };
        r.push(val);
        i = i + 1;
    }
    r
}

impl IpRepr for HalfDictQ {
    fn encode(&self, ip_addrs: &[u128]) -> Result<Vec<u8>, EncodeError> {
        HalfDictQ::encode(self, ip_addrs)
    }

    fn decode(&self, data: &[u8]) -> Result<Vec<u128>, DecodeError> {
        HalfDictQ::decode(self, data)
    }
}

} // verus!
