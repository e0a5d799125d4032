//! Compression codecs for dense columns of 128-bit IP addresses.
//!
//! The core is interval encoding: a trainer picks "skip intervals" in the
//! sorted value domain so that every observed value maps to a compact code
//! of at most 64 bits, and the compressor bitpacks those codes behind a
//! self-describing header. A secondary codec remaps the most frequent
//! values to small ordinals and delegates to a quantile compressor.

use vstd::prelude::*;

pub mod half_dict;
pub mod half_dict_quantile;
pub mod interval;
pub mod pack;
pub mod sort;
pub mod vint;

pub use half_dict::HalfDict;
pub use half_dict_quantile::HalfDictQ;
pub use interval::IntervalEncoding;

verus! {

use vstd::pervasive::VecAdditionalExecFns;

/// Errors reported when a sequence of values cannot be encoded.
#[derive(Clone, Copy, Debug, PartialEq, Eq, Structural)]
pub enum EncodeError {
    /// After training, the compact code space still needs more than 64 bits.
    AmplitudeTooLarge,
    /// The value count does not fit the container's index space.
    TooManyValues,
    /// Shifting a value past the dictionary would overflow 128 bits.
    DictShiftOverflow,
}

/// Errors reported when a byte stream is not a valid container.
#[derive(Clone, Copy, Debug, PartialEq, Eq, Structural)]
pub enum DecodeError {
    /// A variable-length integer ran past the end or past 19 bytes.
    MalformedVInt,
    /// The header ended before all announced fields were read.
    Truncated,
    /// The bit width byte is outside the supported range.
    InvalidNumBits,
    /// The anchor table is not strictly increasing.
    NonMonotoneAnchors,
    /// A header field does not fit the machine's address space.
    CountTooLarge,
    /// The packed body is shorter than the announced value count needs.
    BodyTooShort,
    /// A reconstructed value or compact base overflows its integer type.
    ValueOverflow,
    /// The inner quantile payload was rejected by its decoder.
    InnerCodec,
    /// This codec does not implement decoding.
    Unsupported,
}

/// A uniform encode/decode contract over 128-bit value sequences.
pub trait IpRepr {
    /// Encodes the sequence into a self-describing byte container.
    fn encode(&self, ip_addrs: &[u128]) -> Result<Vec<u8>, EncodeError>;

    /// Decodes a byte container back into the original sequence.
    fn decode(&self, data: &[u8]) -> Result<Vec<u128>, DecodeError>;
}

/// A value together with how often it occurs in the input.
#[derive(Clone, Copy, Debug, PartialEq, Eq, Structural)]
pub struct IPWithCount {
    pub ip: u128,
    pub count: usize,
}

/// The ranking of the dictionary: more frequent first, ties going to the
/// smaller value so the ordering is deterministic.
pub open spec fn beats(x: IPWithCount, y: IPWithCount) -> bool {
    x.count > y.count || (x.count == y.count && x.ip < y.ip)
}

/// Whether some entry of `r` carries the value `x`.
pub open spec fn holds_ip(r: Seq<IPWithCount>, x: u128) -> bool {
    exists|u: int| 0 <= u < r.len() && r[u].ip == x
}

/// Collapses a sorted sequence into its runs: one entry per distinct
/// value, carrying the value's multiplicity.
#[verifier::loop_isolation(false)]
fn count_runs(sorted: &Vec<u128>) -> (r: Vec<IPWithCount>)
    requires
        sort::sorted(sorted@),
    ensures
        forall|u: int, w: int| 0 <= u < w < r@.len() ==> r@[u].ip < r@[w].ip,
        forall|u: int|
            0 <= u < r@.len() ==> (#[trigger] r@[u]).count as int == sorted@.to_multiset().count(
                r@[u].ip,
            ) && r@[u].count >= 1,
        forall|x: u128| #[trigger] sorted@.contains(x) ==> holds_ip(r@, x),
{
    broadcast use vstd::seq_lib::group_to_multiset_ensures;
    broadcast use vstd::multiset::group_multiset_axioms;

    let n = sorted.len();
    let mut runs: Vec<IPWithCount> = Vec::new();
    let mut i: usize = 0;
    while i < n
        invariant
            sort::sorted(sorted@),
            n == sorted@.len(),
            i <= n,
            i == 0 ==> runs@.len() == 0,
            i > 0 ==> runs@.len() >= 1 && runs@.last().ip == sorted@[i - 1],
            forall|u: int, w: int| 0 <= u < w < runs@.len() ==> runs@[u].ip < runs@[w].ip,
            forall|u: int|
                0 <= u < runs@.len() ==> (#[trigger] runs@[u]).count as int == sorted@.subrange(
                    0,
                    i as int,
                ).to_multiset().count(runs@[u].ip) && 1 <= runs@[u].count <= i,
            forall|x: u128|
                #[trigger] sorted@.subrange(0, i as int).contains(x) ==> holds_ip(runs@, x),
        decreases n - i,
    {
        let x = sorted[i];
        let ghost pre = sorted@.subrange(0, i as int);
        let ghost runs0 = runs@;
        proof {
            assert(sorted@.subrange(0, i + 1) =~= pre.push(x));
            vstd::seq_lib::to_multiset_build(pre, x);
        }
        let rlen = runs.len();
        if rlen > 0 && runs[rlen - 1].ip == x {
            let old_count = runs[rlen - 1].count;
            runs.set(rlen - 1, IPWithCount { ip: x, count: old_count + 1 });
            proof {
                assert forall|u: int|
                    0 <= u < runs@.len() implies (#[trigger] runs@[u]).count as int
                    == sorted@.subrange(0, i + 1).to_multiset().count(runs@[u].ip) && 1
                    <= runs@[u].count <= i + 1 by {
                    if u < runs@.len() - 1 {
                        assert(runs@[u] == runs0[u]);
                        assert(runs0[u].ip < runs0[runs0.len() - 1].ip);
                    }
                }
                assert forall|y: u128|
                    #[trigger] sorted@.subrange(0, i + 1).contains(y) implies holds_ip(runs@, y) by {
                    if pre.contains(y) {
                        assert(holds_ip(runs0, y));
                        let u = choose|u: int| 0 <= u < runs0.len() && runs0[u].ip == y;
                        assert(runs@[u].ip == y);
                    } else {
                        assert(y == x);
                        assert(runs@[runs@.len() - 1].ip == x);
                    }
                }
            }
        } else {
            proof {
                if pre.contains(x) {
                    assert(holds_ip(runs0, x));
                    let u = choose|u: int| 0 <= u < runs0.len() && runs0[u].ip == x;
                    if i > 0 {
                        assert(runs0[u].ip <= runs0[runs0.len() - 1].ip);
                        assert(runs0.last().ip == sorted@[i - 1]);
                        assert(sorted@[i - 1] <= x);
                    }
                    assert(false);
                }
                assert(pre.to_multiset().count(x) == 0);
            }
            runs.push(IPWithCount { ip: x, count: 1 });
            proof {
                if i > 0 {
                    assert(runs0.last().ip == sorted@[i - 1]);
                    assert(sorted@[i - 1] <= x);
                }
                assert forall|u: int|
                    0 <= u < runs@.len() implies (#[trigger] runs@[u]).count as int
                    == sorted@.subrange(0, i + 1).to_multiset().count(runs@[u].ip) && 1
                    <= runs@[u].count <= i + 1 by {
                    if u < runs@.len() - 1 {
                        assert(runs@[u] == runs0[u]);
                        assert(runs0[u].ip <= runs0[runs0.len() - 1].ip);
                        assert(runs0[u].ip != x);
                    }
                }
                assert forall|y: u128|
                    #[trigger] sorted@.subrange(0, i + 1).contains(y) implies holds_ip(runs@, y) by {
                    if pre.contains(y) {
                        let u = choose|u: int| 0 <= u < runs0.len() && runs0[u].ip == y;
                        assert(runs@[u].ip == y);
                    } else {
                        assert(runs@[runs@.len() - 1].ip == x);
                    }
                }
            }
        }
        i = i + 1;
    }
    proof {
        assert(sorted@.subrange(0, n as int) =~= sorted@);
    }
    runs
}

/// Sorts the run entries by rank: most frequent first, ties by value.
#[verifier::loop_isolation(false)]
fn sort_by_beats(runs: Vec<IPWithCount>) -> (r: Vec<IPWithCount>)
    requires
        forall|u: int, w: int| 0 <= u < w < runs@.len() ==> runs@[u].ip != runs@[w].ip,
    ensures
        r@.len() == runs@.len(),
        r@.to_multiset() == runs@.to_multiset(),
        forall|u: int, w: int| 0 <= u < w < r@.len() ==> beats(r@[u], r@[w]),
{
    broadcast use vstd::seq_lib::group_to_multiset_ensures;
    broadcast use vstd::multiset::group_multiset_axioms;

    let mut r: Vec<IPWithCount> = Vec::new();
    let mut i: usize = 0;
    while i < runs.len()
        invariant
            forall|u: int, w: int| 0 <= u < w < runs@.len() ==> runs@[u].ip != runs@[w].ip,
            i <= runs@.len(),
            r@.len() == i,
            r@.to_multiset() == runs@.subrange(0, i as int).to_multiset(),
            forall|u: int, w: int| 0 <= u < w < r@.len() ==> beats(r@[u], r@[w]),
            forall|q: int|
                0 <= q < r@.len() ==> exists|u: int|
                    0 <= u < i && (#[trigger] r@[q]) == runs@[u],
        decreases runs@.len() - i,
    {
        let el = runs[i];
        let ghost r0 = r@;
        let mut p: usize = 0;
        let mut scanning = true;
        while scanning
            invariant
                p <= r@.len(),
                r@ == r0,
                forall|q: int| 0 <= q < p ==> beats(r@[q], el),
                !scanning ==> (p == r@.len() || !beats(r0[p as int], el)),
            decreases r@.len() - p + (if scanning {
                1int
            } else {
                0int
            }),
        {
            if p >= r.len() {
                scanning = false;
            } else {
                let c = r[p];
                if c.count > el.count || (c.count == el.count && c.ip < el.ip) {
                    p = p + 1;
                } else {
                    scanning = false;
                }
            }
        }
        proof {
            if p < r0.len() {
                assert(!beats(r0[p as int], el));
                // Distinct values make the ranking total.
                let u = choose|u: int| 0 <= u < i && r0[p as int] == runs@[u];
                assert(runs@[u].ip != runs@[i as int].ip);
                assert(beats(el, r0[p as int]));
            }
        }
        r.insert(p, el);
        proof {
            assert(r@ == r0.insert(p as int, el));
            vstd::seq_lib::to_multiset_insert(r0, p as int, el);
            assert(runs@.subrange(0, i + 1) =~= runs@.subrange(0, i as int).push(el));
            vstd::seq_lib::to_multiset_build(runs@.subrange(0, i as int), el);
            assert forall|u: int, w: int| 0 <= u < w < r@.len() implies beats(r@[u], r@[w]) by {
                assert(forall|q: int| 0 <= q < p ==> r@[q] == r0[q]);
                assert(r@[p as int] == el);
                assert(forall|q: int| p < q < r@.len() ==> r@[q] == r0[q - 1]);
                if w < p {
                    assert(beats(r0[u], r0[w]));
                } else if w == p {
                    assert(beats(r0[u], el));
                } else {
                    if u < p {
                        assert(beats(r0[u], r0[w - 1]));
                    } else if u == p {
                        assert(beats(el, r0[p as int]));
                        if w - 1 > p {
                            assert(beats(r0[p as int], r0[w - 1]));
                        }
                    } else {
                        assert(beats(r0[u - 1], r0[w - 1]));
                    }
                }
            }
            assert forall|q: int| 0 <= q < r@.len() implies exists|u: int|
                0 <= u < i + 1 && (#[trigger] r@[q]) == runs@[u] by {
                if q == p {
                    assert(r@[q] == runs@[i as int]);
                } else if q < p {
                    let u = choose|u: int| 0 <= u < i && r0[q] == runs@[u];
                    assert(r@[q] == runs@[u]);
                } else {
                    let u = choose|u: int| 0 <= u < i && r0[q - 1] == runs@[u];
                    assert(r@[q] == runs@[u]);
                }
            }
        }
        i = i + 1;
    }
    proof {
        assert(runs@.subrange(0, runs@.len() as int) =~= runs@);
    }
    r
}

/// Selects the most frequent values, at most `top_n` of them: descending
/// frequency, ties broken by ascending value. Each entry carries the
/// value's exact multiplicity, and every value left out ranks no higher
/// than the last entry kept.
#[verifier::loop_isolation(false)]
pub fn get_most_common(ip_addrs: &[u128], top_n: usize) -> (r: Vec<IPWithCount>)
    ensures
        r@.len() <= top_n,
        forall|u: int, w: int| 0 <= u < w < r@.len() ==> beats(r@[u], r@[w]),
        forall|u: int|
            0 <= u < r@.len() ==> (#[trigger] r@[u]).count as int == ip_addrs@.to_multiset().count(
                r@[u].ip,
            ) && r@[u].count >= 1,
        forall|x: u128|
            #[trigger] ip_addrs@.contains(x) && !holds_ip(r@, x) ==> r@.len() == top_n && (r@.len()
                > 0 ==> beats(
                r@[r@.len() - 1],
                (IPWithCount { ip: x, count: ip_addrs@.to_multiset().count(x) as usize }),
            )),
{
    broadcast use vstd::seq_lib::group_to_multiset_ensures;
    broadcast use vstd::multiset::group_multiset_axioms;

    let v = vstd::slice::slice_to_vec(ip_addrs);
    let sorted_v = sort::merge_sort(v);
    let ghost s = sorted_v@;
    proof {
        assert forall|x: u128| #[trigger] ip_addrs@.contains(x) implies s.contains(x) by {
            assert(ip_addrs@.to_multiset().count(x) > 0);
            assert(s.to_multiset().count(x) == ip_addrs@.to_multiset().count(x));
        }
        assert(forall|x: u128|
            s.to_multiset().count(x) == #[trigger] ip_addrs@.to_multiset().count(x));
    }
    let runs = count_runs(&sorted_v);
    proof {
        assert forall|u: int, w: int| 0 <= u < w < runs@.len() implies runs@[u].ip != runs@[w].ip
            by {
            assert(runs@[u].ip < runs@[w].ip);
        }
    }
    let ranked = sort_by_beats(runs);
    let ghost rk = ranked@;
    proof {
        // every ranked entry is a run entry, so its count is exact
        assert forall|q: int| 0 <= q < rk.len() implies (#[trigger] rk[q]).count as int
            == ip_addrs@.to_multiset().count(rk[q].ip) && rk[q].count >= 1 by {
            assert(rk.to_multiset().count(rk[q]) > 0);
            assert(runs@.to_multiset().count(rk[q]) > 0);
            assert(runs@.contains(rk[q]));
            let u = choose|u: int| 0 <= u < runs@.len() && runs@[u] == rk[q];
            assert(runs@[u].count as int == s.to_multiset().count(runs@[u].ip));
        }
    }
    let m: usize = if top_n < ranked.len() {
        top_n
    } else {
        ranked.len()
    };
    let mut r: Vec<IPWithCount> = Vec::new();
    let mut t: usize = 0;
    while t < m
        invariant
            m <= rk.len(),
            rk == ranked@,
            t <= m,
            r@ == rk.subrange(0, t as int),
        decreases m - t,
    {
        r.push(ranked[t]);
        proof {
            assert(rk.subrange(0, t + 1) =~= rk.subrange(0, t as int).push(rk[t as int]));
        }
        t = t + 1;
    }
    proof {
        assert(r@ == rk.subrange(0, m as int));
        assert forall|x: u128|
            #[trigger] ip_addrs@.contains(x) && !holds_ip(r@, x) implies r@.len() == top_n && (
        r@.len() > 0 ==> beats(
            r@[r@.len() - 1],
            (IPWithCount { ip: x, count: ip_addrs@.to_multiset().count(x) as usize }),
        )) by {
            assert(s.contains(x));
            assert(holds_ip(runs@, x));
            let u = choose|u: int| 0 <= u < runs@.len() && runs@[u].ip == x;
            assert(runs@.contains(runs@[u]));
            assert(runs@.to_multiset().count(runs@[u]) > 0);
            assert(rk.to_multiset().count(runs@[u]) > 0);
            assert(rk.contains(runs@[u]));
            let q = choose|q: int| 0 <= q < rk.len() && rk[q] == runs@[u];
            assert(q >= m) by {
                if q < m {
                    assert(r@[q].ip == x);
                }
            }
            assert(m < rk.len());
            assert(m == top_n);
            assert(rk[q].count as int == ip_addrs@.to_multiset().count(x));
            assert(rk[q] == (IPWithCount {
                ip: x,
                count: ip_addrs@.to_multiset().count(x) as usize,
            }));
            if m > 0 {
                assert(beats(rk[m - 1], rk[q]));
                assert(r@[r@.len() - 1] == rk[m - 1]);
            }
        }
    }
    r
}

} // verus!
