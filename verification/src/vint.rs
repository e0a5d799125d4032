//! Variable-length integers: little-endian base-128 digits, 7 payload bits
//! per byte, high bit set on the final byte. Zero encodes as the single
//! byte 0x80; no value needs more than 19 bytes.

use vstd::prelude::*;

use crate::DecodeError;

verus! {

/// 128 raised to `k`; the weight of the `k`-th base-128 digit.
pub open spec fn pow128(k: nat) -> nat
    decreases k,
{
    if k == 0 {
        1nat
    } else {
        128 * pow128((k - 1) as nat)
    }
}

/// The byte sequence that encodes `v`.
pub open spec fn vint_bytes(v: nat) -> Seq<u8>
    decreases v,
{
    if v < 128 {
        seq![(v + 128) as u8]
    } else {
        seq![(v % 128) as u8] + vint_bytes(v / 128)
    }
}

/// `s` has the shape of one whole encoding: 1 to 19 bytes, all digit
/// bytes below 128, and the final byte carrying the stop bit.
pub open spec fn is_vint_encoding(s: Seq<u8>) -> bool {
    &&& 1 <= s.len() <= 19
    &&& (forall|i: int| 0 <= i < s.len() - 1 ==> s[i] < 128)
    &&& s[s.len() - 1] >= 128
}

/// The value carried by the digit bytes of `s`, low digits first.
pub open spec fn vint_value(s: Seq<u8>) -> nat
    decreases s.len(),
{
    if s.len() == 0 {
        0nat
    } else {
        (s[0] % 128) as nat + 128 * vint_value(s.drop_first())
    }
}

/// The bytes of `data` starting at `off` begin with the encoding of `v`.
pub open spec fn vint_at(data: Seq<u8>, off: int, v: u128) -> bool {
    &&& 0 <= off
    &&& off + vint_bytes(v as nat).len() <= data.len()
    &&& data.subrange(off, off + vint_bytes(v as nat).len()) == vint_bytes(v as nat)
}

/// A whole encoding of a value that fits 128 bits runs from `off` to
/// exactly `end`; the encoding need not be canonical (digit bytes of
/// zero before the stop byte are allowed).
pub open spec fn vint_encoding_at(data: Seq<u8>, off: int, end: int) -> bool {
    &&& 0 <= off < end <= data.len()
    &&& is_vint_encoding(data.subrange(off, end))
    &&& vint_value(data.subrange(off, end)) <= u128::MAX as nat
}

pub proof fn lemma_pow128_positive(k: nat)
    ensures
        pow128(k) >= 1,
    decreases k,
{
    if k > 0 {
        lemma_pow128_positive((k - 1) as nat);
    }
}

/// Appending one digit byte adds its weighted value.
pub proof fn lemma_vint_value_append(s: Seq<u8>, b: u8)
    ensures
        vint_value(s.push(b)) == vint_value(s) + pow128(s.len()) * ((b % 128) as nat),
    decreases s.len(),
{
    let t = s.push(b);
    assert(t.len() == s.len() + 1);
    if s.len() == 0 {
        assert(t[0] == b);
        assert(t.drop_first() =~= Seq::<u8>::empty());
        assert(vint_value(t) == (b % 128) as nat + 128 * vint_value(Seq::<u8>::empty()));
        assert(pow128(0) == 1);
    } else {
        assert(t[0] == s[0]);
        assert(t.drop_first() =~= s.drop_first().push(b));
        lemma_vint_value_append(s.drop_first(), b);
        let m = (s.len() - 1) as nat;
        assert(vint_value(t) == (s[0] % 128) as nat + 128 * (vint_value(s.drop_first()) + pow128(m)
            * ((b % 128) as nat)));
        assert(128 * (vint_value(s.drop_first()) + pow128(m) * ((b % 128) as nat)) == 128
            * vint_value(s.drop_first()) + (128 * pow128(m)) * ((b % 128) as nat))
            by (nonlinear_arith);
        assert(pow128(s.len()) == 128 * pow128(m));
        assert(vint_value(s) == (s[0] % 128) as nat + 128 * vint_value(s.drop_first()));
    }
}

/// Splitting off digit bytes scales the remainder by their weight.
pub proof fn lemma_vint_value_concat(a: Seq<u8>, b: Seq<u8>)
    ensures
        vint_value(a + b) == vint_value(a) + pow128(a.len()) * vint_value(b),
    decreases a.len(),
{
    let t = a + b;
    if a.len() == 0 {
        assert(t =~= b);
        assert(pow128(0) == 1);
    } else {
        assert(t.len() == a.len() + b.len());
        assert(t.drop_first() =~= a.drop_first() + b);
        lemma_vint_value_concat(a.drop_first(), b);
        assert(t[0] == a[0]);
        let m = (a.len() - 1) as nat;
        assert(vint_value(t) == (a[0] % 128) as nat + 128 * (vint_value(a.drop_first()) + pow128(m)
            * vint_value(b)));
        assert(128 * (vint_value(a.drop_first()) + pow128(m) * vint_value(b)) == 128 * vint_value(
            a.drop_first(),
        ) + (128 * pow128(m)) * vint_value(b)) by (nonlinear_arith);
        assert(pow128(a.len()) == 128 * pow128(m));
        assert(vint_value(a) == (a[0] % 128) as nat + 128 * vint_value(a.drop_first()));
    }
}

/// The encoding of any `v` below `pow128(k)` takes at most `k` bytes,
/// has the announced shape, and decodes back to `v`.
pub proof fn lemma_vint_bytes_wf(v: nat, k: nat)
    requires
        1 <= k <= 19,
        v < pow128(k),
    ensures
        is_vint_encoding(vint_bytes(v)),
        vint_bytes(v).len() <= k,
        vint_value(vint_bytes(v)) == v,
    decreases v,
{
    if v < 128 {
        let s = vint_bytes(v);
        assert(s.len() == 1);
        assert(s[0] == (v + 128) as u8);
        assert(vint_value(s) == (s[0] % 128) as nat + 128 * vint_value(s.drop_first()));
        assert(s.drop_first() =~= Seq::<u8>::empty());
    } else {
        assert(k >= 2) by {
            if k == 1 {
                reveal_with_fuel(pow128, 2);
                assert(pow128(1nat) == 128);
            }
        }
        assert(v / 128 < pow128((k - 1) as nat)) by (nonlinear_arith)
            requires
                v < pow128(k),
                pow128(k) == 128 * pow128((k - 1) as nat),
        ;
        lemma_vint_bytes_wf(v / 128, (k - 1) as nat);
        let head = seq![(v % 128) as u8];
        let rest = vint_bytes(v / 128);
        let s = vint_bytes(v);
        assert(s =~= head + rest);
        assert(s.drop_first() =~= rest);
        assert(forall|i: int|
            0 <= i < s.len() - 1 ==> s[i] < 128) by {
            assert(forall|i: int| 1 <= i < s.len() - 1 ==> s[i] == rest[i - 1]);
        }
        assert(vint_value(s) == (v % 128) as nat + 128 * (v / 128));
        assert((v % 128) as nat + 128 * (v / 128) == v) by (nonlinear_arith);
    }
}

/// Two whole encodings that both start the same byte sequence are the
/// same encoding: the first stop bit fixes where an encoding ends.
pub proof fn lemma_encoding_prefix_unique(s: Seq<u8>, a: Seq<u8>, b: Seq<u8>)
    requires
        is_vint_encoding(a),
        is_vint_encoding(b),
        a.len() <= s.len(),
        b.len() <= s.len(),
        a == s.subrange(0, a.len() as int),
        b == s.subrange(0, b.len() as int),
    ensures
        a == b,
{
    if a.len() < b.len() {
        assert(a[a.len() - 1] == s[a.len() - 1]);
        assert(b[a.len() - 1] == s[a.len() - 1]);
        assert(b[a.len() - 1] < 128);
        assert(false);
    } else if b.len() < a.len() {
        assert(b[b.len() - 1] == s[b.len() - 1]);
        assert(a[b.len() - 1] == s[b.len() - 1]);
        assert(a[b.len() - 1] < 128);
        assert(false);
    } else {
        assert(a =~= b);
    }
}

/// Every `u128` fits in 19 digit bytes.
pub proof fn lemma_u128_below_pow128_19()
    ensures
        u128::MAX < pow128(19),
{
    reveal_with_fuel(pow128, 20);
}

/// The digit weight never overflows while a twentieth byte is impossible.
proof fn lemma_pow128_17_small()
    ensures
        pow128(17) <= u128::MAX / 128,
{
    reveal_with_fuel(pow128, 18);
}

/// The round-trip law of the variable-length integers: the encoding of
/// any value, followed by anything at all, parses back to that value and
/// consumes exactly the encoding. Together with the contract of
/// `deserialize_vint` this pins `deserialize(serialize(v)) == (v, end)`.
pub proof fn lemma_vint_round_trip(v: u128, rest: Seq<u8>)
    ensures
        vint_at(vint_bytes(v as nat) + rest, 0, v),
{
    lemma_u128_below_pow128_19();
    lemma_vint_bytes_wf(v as nat, 19);
    let data = vint_bytes(v as nat) + rest;
    assert(data.subrange(0, vint_bytes(v as nat).len() as int) =~= vint_bytes(v as nat));
}

/// Serializes `val` as a little-endian base-128 integer with a stop bit,
/// appending to `output`.
pub fn serialize_vint(val: u128, output: &mut Vec<u8>)
    ensures
        final(output)@ == old(output)@ + vint_bytes(val as nat),
    decreases val,
{
    let next_byte: u8 = (val % 128) as u8;
    let rest: u128 = val / 128;
    if rest == 0 {
        assert(val < 128);
        let stop = next_byte | 128u8;
        assert(stop == (val as nat + 128) as u8) by (bit_vector)
            requires
                next_byte == (val % 128) as u8,
                stop == next_byte | 128u8,
                val < 128,
        ;
        output.push(stop);
        assert(final(output)@ =~= old(output)@ + vint_bytes(val as nat));
    } else {
        output.push(next_byte);
        serialize_vint(rest, output);
        assert(final(output)@ =~= old(output)@ + vint_bytes(val as nat));
    }
}

/// Reads one variable-length integer from `data` at `offset`. On success
/// returns the value and the offset just past its final byte. Fails if and
/// only if no whole encoding of a 128-bit value starts at `offset`.
pub fn deserialize_vint(data: &[u8], offset: usize) -> (r: Result<(u128, usize), DecodeError>)
    requires
        offset <= data@.len(),
    ensures
        match r {
            Ok(p) => {
                &&& offset < p.1 <= data@.len()
                &&& is_vint_encoding(data@.subrange(offset as int, p.1 as int))
                &&& p.0 as nat == vint_value(data@.subrange(offset as int, p.1 as int))
            },
            Err(e) => e == DecodeError::MalformedVInt,
        },
        forall|v: u128|
            vint_at(data@, offset as int, v) ==> r == Ok::<(u128, usize), DecodeError>(
                (v, (offset + vint_bytes(v as nat).len()) as usize),
            ),
        forall|end: int|
            #[trigger] vint_encoding_at(data@, offset as int, end) ==> r == Ok::<
                (u128, usize),
                DecodeError,
            >((vint_value(data@.subrange(offset as int, end)) as u128, end as usize)),
{
    proof {
        lemma_u128_below_pow128_19();
    }
    let ghost whole = data@;
    let mut value: u128 = 0;
    let mut factor: u128 = 1;
    let mut i: usize = 0;
    loop
        invariant
            whole == data@,
            u128::MAX < pow128(19),
            offset <= data@.len(),
            0 <= i <= 18,
            offset + i <= data@.len(),
            factor as nat == pow128(i as nat),
            forall|j: int| offset <= j < offset + i ==> data@[j] < 128,
            value as nat == vint_value(data@.subrange(offset as int, offset + i)),
        decreases 19 - i,
    {
        let ghost prefix = data@.subrange(offset as int, offset + i);
        if data.len() - offset <= i {
            // The stream ended before a stop byte: no encoding fits here.
            proof {
                assert forall|v: u128| !vint_at(data@, offset as int, v) by {
                    if vint_at(data@, offset as int, v) {
                        lemma_vint_bytes_wf(v as nat, 19);
                        let e = vint_bytes(v as nat);
                        let li = offset + e.len() - 1;
                        assert(data@[li] == e[e.len() - 1]);
                        assert(data@[li] >= 128);
                        assert(offset <= li < offset + i);
                    }
                }
                assert forall|end: int| !vint_encoding_at(data@, offset as int, end) by {
                    if vint_encoding_at(data@, offset as int, end) {
                        let a = data@.subrange(offset as int, end);
                        assert(a[a.len() - 1] == data@[end - 1]);
                        assert(data@[end - 1] >= 128);
                        assert(offset <= end - 1 < offset + i);
                    }
                }
            }
            return Err(DecodeError::MalformedVInt);
        }
        let b: u8 = data[offset + i];
        let digit: u128 = (b % 128) as u128;
        proof {
            lemma_vint_value_append(prefix, b);
            assert(prefix.push(b) =~= data@.subrange(offset as int, offset + i + 1));
        }
        // Guard the shifted digit against running past 128 bits.
        let mut overflow: bool = false;
        if digit != 0 {
            if factor > u128::MAX / digit {
                overflow = true;
            } else {
                assert(digit * factor <= u128::MAX) by (nonlinear_arith)
                    requires
                        digit >= 1,
                        factor <= u128::MAX / digit,
                ;
                if value > u128::MAX - digit * factor {
                    overflow = true;
                }
            }
        }
        if overflow {
            // The value would exceed 128 bits: reject the stream.
            proof {
                assert(digit >= 1);
                assert(vint_value(prefix.push(b)) > u128::MAX as nat) by (nonlinear_arith)
                    requires
                        vint_value(prefix.push(b)) == vint_value(prefix) + pow128(prefix.len())
                            * ((b % 128) as nat),
                        vint_value(prefix) == value as nat,
                        pow128(prefix.len()) == factor as nat,
                        digit as nat == (b % 128) as nat,
                        digit >= 1,
                        (factor > u128::MAX / digit) || (digit * factor <= u128::MAX && value
                            > u128::MAX - digit * factor),
                ;
                assert forall|v: u128| !vint_at(data@, offset as int, v) by {
                    if vint_at(data@, offset as int, v) {
                        lemma_vint_bytes_wf(v as nat, 19);
                        let e = vint_bytes(v as nat);
                        // The scanned digits are a prefix of the digits of v,
                        // so v is at least the scanned partial value.
                        assert(e.len() > i) by {
                            if e.len() <= i {
                                assert(data@[offset + e.len() - 1] == e[e.len() - 1]);
                            }
                        }
                        let epre = e.subrange(0, i + 1);
                        assert(epre =~= prefix.push(b)) by {
                            assert forall|j: int| 0 <= j < i + 1 implies epre[j] == prefix.push(
                                b,
                            )[j] by {
                                assert(e[j] == data@[offset + j]);
                            }
                        }
                        lemma_vint_value_concat(epre, e.subrange(i + 1, e.len() as int));
                        assert(e =~= epre + e.subrange(i + 1, e.len() as int));
                        lemma_pow128_positive(epre.len());
                        assert(vint_value(e) >= vint_value(epre)) by (nonlinear_arith)
                            requires
                                vint_value(e) == vint_value(epre) + pow128(epre.len()) * vint_value(
                                    e.subrange(i + 1, e.len() as int),
                                ),
                        ;
                        assert(v as nat >= vint_value(prefix.push(b)));
                    }
                }
                assert forall|end: int| !vint_encoding_at(data@, offset as int, end) by {
                    if vint_encoding_at(data@, offset as int, end) {
                        let a = data@.subrange(offset as int, end);
                        if end <= offset + i {
                            assert(a[a.len() - 1] == data@[end - 1]);
                            assert(data@[end - 1] >= 128);
                            assert(offset <= end - 1 < offset + i);
                        } else {
                            // the scanned digits prefix this encoding, so its
                            // value also tops 128 bits
                            let epre = a.subrange(0, i + 1);
                            assert(epre =~= prefix.push(b)) by {
                                assert forall|j: int| 0 <= j < i + 1 implies epre[j] == prefix.push(
                                    b,
                                )[j] by {
                                    assert(a[j] == data@[offset + j]);
                                }
                            }
                            lemma_vint_value_concat(epre, a.subrange(i + 1, a.len() as int));
                            assert(a =~= epre + a.subrange(i + 1, a.len() as int));
                            lemma_pow128_positive(epre.len());
                            assert(vint_value(a) >= vint_value(epre)) by (nonlinear_arith)
                                requires
                                    vint_value(a) == vint_value(epre) + pow128(epre.len())
                                        * vint_value(a.subrange(i + 1, a.len() as int)),
                            ;
                        }
                    }
                }
            }
            return Err(DecodeError::MalformedVInt);
        }
        assert(digit == 0 ==> digit * factor == 0) by (nonlinear_arith);
        let prod: u128 = digit * factor;
        proof {
            assert(prod as nat == pow128(prefix.len()) * ((b % 128) as nat)) by (nonlinear_arith)
                requires
                    prod as nat == (digit * factor) as nat,
                    digit * factor <= u128::MAX,
                    digit as nat == (b % 128) as nat,
                    factor as nat == pow128(prefix.len()),
            ;
        }
        value = value + prod;
        proof {
            assert(value as nat == vint_value(prefix.push(b)));
        }
        if b >= 128 {
            let end = offset + i + 1;
            let ghost consumed = data@.subrange(offset as int, end as int);
            proof {
                assert(consumed =~= prefix.push(b));
                assert(is_vint_encoding(consumed));
                assert forall|v: u128| vint_at(data@, offset as int, v) implies Ok::<
                    (u128, usize),
                    DecodeError,
                >((value, end)) == Ok::<(u128, usize), DecodeError>(
                    (v, (offset + vint_bytes(v as nat).len()) as usize),
                ) by {
                    lemma_vint_bytes_wf(v as nat, 19);
                    let e = vint_bytes(v as nat);
                    let tail = data@.subrange(offset as int, data@.len() as int);
                    assert(e == tail.subrange(0, e.len() as int)) by {
                        assert(e =~= tail.subrange(0, e.len() as int));
                    }
                    assert(consumed == tail.subrange(0, consumed.len() as int)) by {
                        assert(consumed =~= tail.subrange(0, consumed.len() as int));
                    }
                    lemma_encoding_prefix_unique(tail, e, consumed);
                    assert(v as nat == vint_value(consumed));
                }
                assert forall|end2: int|
                    #[trigger] vint_encoding_at(data@, offset as int, end2) implies Ok::<
                    (u128, usize),
                    DecodeError,
                >((value, end)) == Ok::<(u128, usize), DecodeError>(
                    (vint_value(data@.subrange(offset as int, end2)) as u128, end2 as usize),
                ) by {
                    let a = data@.subrange(offset as int, end2);
                    let tail = data@.subrange(offset as int, data@.len() as int);
                    assert(a == tail.subrange(0, a.len() as int)) by {
                        assert(a =~= tail.subrange(0, a.len() as int));
                    }
                    assert(consumed == tail.subrange(0, consumed.len() as int)) by {
                        assert(consumed =~= tail.subrange(0, consumed.len() as int));
                    }
                    lemma_encoding_prefix_unique(tail, a, consumed);
                }
            }
            return Ok((value, end));
        }
        if i == 18 {
            // Nineteen digit bytes and still no stop bit.
            proof {
                assert forall|v: u128| !vint_at(data@, offset as int, v) by {
                    if vint_at(data@, offset as int, v) {
                        lemma_vint_bytes_wf(v as nat, 19);
                        let e = vint_bytes(v as nat);
                        let li = offset + e.len() - 1;
                        assert(data@[li] == e[e.len() - 1]);
                        assert(data@[li] >= 128);
                        assert(offset <= li < offset + i + 1);
                    }
                }
                assert forall|end: int| !vint_encoding_at(data@, offset as int, end) by {
                    if vint_encoding_at(data@, offset as int, end) {
                        let a = data@.subrange(offset as int, end);
                        assert(a.len() <= 19);
                        assert(a[a.len() - 1] == data@[end - 1]);
                        assert(data@[end - 1] >= 128);
                        assert(offset <= end - 1 < offset + i + 1);
                        assert(data@[offset + i] == b);
                    }
                }
            }
            return Err(DecodeError::MalformedVInt);
        }
        assert(factor as nat == pow128(i as nat));
        assert(pow128((i + 1) as nat) == 128 * pow128(i as nat));
        assert(factor <= u128::MAX / 128) by {
            lemma_pow128_17_small();
            lemma_pow128_le(i as nat, 17nat);
        }
        factor = factor * 128;
        i = i + 1;
    }
}

/// `pow128` is monotone in its exponent.
pub proof fn lemma_pow128_le(a: nat, b: nat)
    requires
        a <= b,
    ensures
        pow128(a) <= pow128(b),
    decreases b,
{
    if a < b {
        lemma_pow128_le(a, (b - 1) as nat);
        lemma_pow128_positive((b - 1) as nat);
    }
}

} // verus!
