//! Interval encoding of 128-bit values.
//!
//! A trainer walks the gaps of the sorted input, largest first, and turns
//! the chosen gap starts into anchors: pairs of a value base and a compact
//! base. Mapping a value through the greatest anchor at or below it
//! collapses the unused spans of the domain, so that every observed value
//! fits a compact code of at most 64 bits. The compressor bitpacks the
//! codes behind a self-describing header; the decompressor mirrors the
//! anchors and restores the exact input sequence.

use vstd::arithmetic::power2::pow2;
use vstd::prelude::*;

use crate::pack;
use crate::sort;
use crate::vint;
use crate::{DecodeError, EncodeError, IpRepr};

verus! {

/// One interval boundary: values from `value` on map to compact codes
/// from `compact` on, until the next anchor starts.
#[derive(Clone, Copy, Debug, PartialEq, Eq, Structural)]
pub struct Anchor {
    pub value: u128,
    pub compact: u64,
}

/// Anchor values and compact codes are both strictly increasing.
pub open spec fn anchors_sorted(a: Seq<Anchor>) -> bool {
    forall|i: int, j: int|
        0 <= i < j < a.len() ==> (#[trigger] a[i]).value < (#[trigger] a[j]).value && a[i].compact
            < a[j].compact
}

/// Each interval collapses the domain: a compact step never exceeds the
/// value step that produced it.
pub open spec fn anchors_contract(a: Seq<Anchor>) -> bool {
    forall|i: int|
        0 <= i < a.len() - 1 ==> (#[trigger] a[i + 1]).compact - a[i].compact <= a[i + 1].value
            - a[i].value
}

/// A well-formed anchor map.
pub open spec fn anchors_wf(a: Seq<Anchor>) -> bool {
    anchors_sorted(a) && anchors_contract(a)
}

/// Index of the greatest anchor whose value is at or below `v`; -1 if
/// every anchor lies above `v`.
pub open spec fn idx_at(a: Seq<Anchor>, v: u128) -> int
    decreases a.len(),
{
    if a.len() == 0 {
        -1
    } else if a[a.len() - 1].value <= v {
        a.len() - 1
    } else {
        idx_at(a.drop_last(), v)
    }
}

/// The forward map: the compact code of `v` under the anchor map `a`.
/// Below the first anchor the identity applies.
pub open spec fn fwd(a: Seq<Anchor>, v: u128) -> int {
    let i = idx_at(a, v);
    if i == -1 {
        v as int
    } else {
        a[i].compact + (v - a[i].value)
    }
}

/// Index of the greatest anchor whose compact base is at or below `c`.
pub open spec fn cidx_at(a: Seq<Anchor>, c: int) -> int
    decreases a.len(),
{
    if a.len() == 0 {
        -1
    } else if a[a.len() - 1].compact <= c {
        a.len() - 1
    } else {
        cidx_at(a.drop_last(), c)
    }
}

/// The inverse map: the value that the compact code `c` stands for.
pub open spec fn inv(a: Seq<Anchor>, c: int) -> int {
    let i = cidx_at(a, c);
    if i == -1 {
        c
    } else {
        a[i].value + (c - a[i].compact)
    }
}

/// `v` sits inside the run of its anchor: its code stays below the next
/// anchor's compact base, so the inverse map sends it back to `v`.
pub open spec fn covered(a: Seq<Anchor>, v: u128) -> bool {
    let i = idx_at(a, v);
    if i == -1 {
        a.len() == 0 || (v as int) < a[0].compact
    } else {
        i == a.len() - 1 || fwd(a, v) < a[i + 1].compact
    }
}

pub proof fn lemma_idx_at_props(a: Seq<Anchor>, v: u128)
    ensures
        -1 <= idx_at(a, v) < a.len(),
        idx_at(a, v) >= 0 ==> a[idx_at(a, v)].value <= v,
        forall|j: int| idx_at(a, v) < j < a.len() ==> (#[trigger] a[j]).value > v,
    decreases a.len(),
{
    if a.len() > 0 && a[a.len() - 1].value > v {
        lemma_idx_at_props(a.drop_last(), v);
        assert(forall|j: int| 0 <= j < a.len() - 1 ==> a.drop_last()[j] == a[j]);
    }
}

pub proof fn lemma_idx_at_bracket(a: Seq<Anchor>, v: u128, i: int)
    requires
        anchors_sorted(a),
        -1 <= i < a.len(),
        i >= 0 ==> a[i].value <= v,
        i + 1 < a.len() ==> v < a[i + 1].value,
        i == -1 && a.len() > 0 ==> v < a[0].value,
    ensures
        idx_at(a, v) == i,
{
    lemma_idx_at_props(a, v);
    let k = idx_at(a, v);
    if k < i {
        assert(a[i].value > v);
        assert(false);
    } else if k > i {
        assert(a[k].value <= v);
        if i + 1 < a.len() && i + 1 < k {
            assert(a[i + 1].value < a[k].value);
        }
        assert(false);
    }
}

pub proof fn lemma_cidx_at_props(a: Seq<Anchor>, c: int)
    ensures
        -1 <= cidx_at(a, c) < a.len(),
        cidx_at(a, c) >= 0 ==> a[cidx_at(a, c)].compact <= c,
        forall|j: int| cidx_at(a, c) < j < a.len() ==> (#[trigger] a[j]).compact > c,
    decreases a.len(),
{
    if a.len() > 0 && a[a.len() - 1].compact > c {
        lemma_cidx_at_props(a.drop_last(), c);
        assert(forall|j: int| 0 <= j < a.len() - 1 ==> a.drop_last()[j] == a[j]);
    }
}

pub proof fn lemma_cidx_at_bracket(a: Seq<Anchor>, c: int, i: int)
    requires
        anchors_sorted(a),
        -1 <= i < a.len(),
        i >= 0 ==> a[i].compact <= c,
        i + 1 < a.len() ==> c < a[i + 1].compact,
        i == -1 && a.len() > 0 ==> c < a[0].compact,
    ensures
        cidx_at(a, c) == i,
{
    lemma_cidx_at_props(a, c);
    let k = cidx_at(a, c);
    if k < i {
        assert(a[i].compact > c);
        assert(false);
    } else if k > i {
        assert(a[k].compact <= c);
        if i + 1 < a.len() && i + 1 < k {
            assert(a[i + 1].compact < a[k].compact);
        }
        assert(false);
    }
}

/// The inverse map undoes the forward map on every covered value.
pub proof fn lemma_fwd_inv(a: Seq<Anchor>, v: u128)
    requires
        anchors_wf(a),
        covered(a, v),
    ensures
        0 <= fwd(a, v),
        inv(a, fwd(a, v)) == v,
{
    lemma_idx_at_props(a, v);
    let i = idx_at(a, v);
    let c = fwd(a, v);
    if i == -1 {
        lemma_cidx_at_bracket(a, c, -1);
    } else {
        lemma_cidx_at_bracket(a, c, i);
    }
}

/// The forward map is strictly monotone on covered values.
pub proof fn lemma_fwd_monotone(a: Seq<Anchor>, x: u128, y: u128)
    requires
        anchors_wf(a),
        covered(a, x),
        covered(a, y),
        x < y,
    ensures
        fwd(a, x) < fwd(a, y),
{
    lemma_idx_at_props(a, x);
    lemma_idx_at_props(a, y);
    let ix = idx_at(a, x);
    let iy = idx_at(a, y);
    if ix > iy {
        assert(a[ix].value <= x);
        assert(a[ix].value > y);
        assert(false);
    }
    if ix == iy {
    } else {
        assert(0 <= ix + 1 <= iy);
        if ix == -1 {
            assert(fwd(a, x) == x as int);
            assert((x as int) < a[0].compact);
            if iy > 0 {
                assert(a[0].compact <= a[iy].compact);
            }
            assert(a[iy].compact <= fwd(a, y));
        } else {
            assert(fwd(a, x) < a[ix + 1].compact);
            if ix + 1 < iy {
                assert(a[ix + 1].compact < a[iy].compact);
            }
            assert(a[iy].compact <= fwd(a, y));
        }
    }
}

/// The least number of bits that can hold the value `m`.
pub open spec fn min_width(m: nat) -> nat
    decreases m,
{
    if m <= 1 {
        1nat
    } else {
        1nat + min_width(m / 2)
    }
}

/// The header width chosen for a maximum code `m`: the least width that
/// holds it, except that widths 57 to 63 are rounded up to 64, which the
/// bit unpacker requires.
pub open spec fn pick_width(m: nat) -> nat {
    if 57 <= min_width(m) <= 63 {
        64nat
    } else {
        min_width(m)
    }
}

/// The bit-width tightness law: outside the widths the unpacker refuses,
/// the trained width is the unique smallest that holds the maximum code
/// `m`; it holds `m`, and one bit fewer would not. The trainer's
/// contract fixes `num_bits` to `pick_width` of the maximum code.
pub proof fn lemma_width_tightness(m: nat)
    requires
        !(57 <= min_width(m) <= 63),
    ensures
        pick_width(m) == min_width(m),
        m < pow2(pick_width(m)),
        pick_width(m) >= 2 ==> pow2((pick_width(m) - 1) as nat) <= m,
{
    lemma_min_width_fits(m);
    if pick_width(m) >= 2 {
        if m <= 1 {
            assert(min_width(m) == 1);
        }
        lemma_min_width_tight(m);
    }
}

/// A maximum code below a power of two keeps the trained width at or
/// below that exponent, as long as the exponent clears the rounded-up
/// band: together with the trainer's width tie, a training set whose
/// codes fit `k` bits yields a width of at most `k`.
pub proof fn lemma_pick_width_le(m: nat, k: nat)
    requires
        1 <= k <= 56,
        m < pow2(k),
    ensures
        pick_width(m) <= k,
{
    lemma_min_width_le(m, k);
}

pub proof fn lemma_min_width_fits(m: nat)
    ensures
        min_width(m) >= 1,
        m < pow2(min_width(m)),
    decreases m,
{
    vstd::arithmetic::power2::lemma2_to64();
    if m <= 1 {
    } else {
        lemma_min_width_fits(m / 2);
        let w = min_width(m / 2);
        vstd::arithmetic::power2::lemma_pow2_adds(w, 1);
        assert(pow2(w + 1) == pow2(w) * 2);
        assert(m < 2 * pow2(w)) by (nonlinear_arith)
            requires
                m / 2 < pow2(w),
                m >= 2,
                m / 2 >= (m - 1) / 2,
        ;
    }
}

pub proof fn lemma_min_width_tight(m: nat)
    requires
        m >= 1,
    ensures
        pow2((min_width(m) - 1) as nat) <= m,
    decreases m,
{
    vstd::arithmetic::power2::lemma2_to64();
    if m <= 1 {
    } else {
        lemma_min_width_tight(m / 2);
        let w = min_width(m / 2);
        vstd::arithmetic::power2::lemma_pow2_adds((w - 1) as nat, 1);
        assert(pow2(w) == pow2((w - 1) as nat) * 2);
        assert(pow2((w - 1) as nat) <= m / 2 ==> 2 * pow2((w - 1) as nat) <= m) by (nonlinear_arith)
            requires
                m >= 2,
        ;
    }
}

pub proof fn lemma_min_width_le(m: nat, k: nat)
    requires
        k >= 1,
        m < pow2(k),
    ensures
        min_width(m) <= k,
    decreases m,
{
    vstd::arithmetic::power2::lemma2_to64();
    if m <= 1 {
    } else {
        vstd::arithmetic::power2::lemma_pow2_adds((k - 1) as nat, 1);
        assert(pow2(k) == pow2((k - 1) as nat) * 2);
        assert(m / 2 < pow2((k - 1) as nat)) by (nonlinear_arith)
            requires
                m < pow2((k - 1) as nat) * 2,
        ;
        assert(k >= 2) by {
            if k == 1 {
                assert(pow2(1) == 2);
            }
        }
        lemma_min_width_le(m / 2, (k - 1) as nat);
    }
}

/// The gap below position `k` of the sorted input: at position zero the
/// distance up from the implicit lower bound just below zero (saturated
/// at the integer's top), elsewhere the step from the left neighbour.
pub open spec fn gap_at(xs: Seq<u128>, k: int) -> u128 {
    if k == 0 {
        if xs[0] == u128::MAX {
            u128::MAX
        } else {
            (xs[0] + 1) as u128
        }
    } else {
        (xs[k] - xs[k - 1]) as u128
    }
}

/// The normalized mantissa the fixed-point logarithm starts from.
pub open spec fn lg_norm(x: u128) -> nat {
    let w = min_width(x as nat);
    if w <= 33 {
        (x as nat) * pow2((33 - w) as nat)
    } else {
        (x as nat) / pow2((w - 33) as nat)
    }
}

/// The fractional bits of the square-and-halve recursion, high bit first.
pub open spec fn lg_frac(m: nat, rounds: nat) -> nat
    decreases rounds,
{
    if rounds == 0 {
        0nat
    } else {
        let m2 = (m * m) / 0x100000000;
        if m2 >= 0x200000000 {
            pow2((rounds - 1) as nat) + lg_frac(m2 / 2, (rounds - 1) as nat)
        } else {
            lg_frac(m2, (rounds - 1) as nat)
        }
    }
}

/// The fixed-point base-two logarithm the trainer estimates with.
pub open spec fn lg_fp(x: u128) -> int {
    (min_width(x as nat) - 1) * 65536 + lg_frac(lg_norm(x), 16)
}

/// The code-space size whose logarithm the estimate takes: one above the
/// maximum code, saturated at the integer's top.
pub open spec fn amp_for_log(a: u128) -> u128 {
    if a == u128::MAX {
        u128::MAX
    } else {
        (a + 1) as u128
    }
}

/// The position the greedy pops next: the largest unused gap among the
/// first `k` positions, ties going to the later position; -1 when all
/// are used.
pub open spec fn pick_gap(xs: Seq<u128>, used: Seq<bool>, k: int) -> int
    decreases k,
{
    if k <= 0 {
        -1
    } else {
        let rest = pick_gap(xs, used, k - 1);
        if used[k - 1] {
            rest
        } else if rest == -1 || gap_at(xs, k - 1) >= gap_at(xs, rest) {
            k - 1
        } else {
            rest
        }
    }
}

/// The greedy acceptance rule: pop the largest remaining gap and accept
/// it exactly while the estimated body saving exceeds the budget; stop
/// at the first declined gap, a zero gap, or exhaustion.
pub open spec fn greedy_used(
    xs: Seq<u128>,
    budget: int,
    used: Seq<bool>,
    amp1: u128,
    fuel: nat,
) -> Seq<bool>
    decreases fuel,
{
    if fuel == 0 {
        used
    } else {
        let p = pick_gap(xs, used, xs.len() as int);
        if p == -1 {
            used
        } else {
            let delta = gap_at(xs, p);
            if delta == 0 {
                used
            } else {
                let d1 = (delta - 1) as u128;
                let amp1_next: u128 = if d1 > amp1 {
                    0u128
                } else {
                    (amp1 - d1) as u128
                };
                let lgc = lg_fp(amp_for_log(amp1));
                let lgn = lg_fp(amp_for_log(amp1_next));
                let gained: int = if lgc > lgn {
                    ((lgc - lgn) * xs.len()) / 65536
                } else {
                    0int
                };
                if gained <= budget {
                    used
                } else {
                    greedy_used(xs, budget, used.update(p, true), amp1_next, (fuel - 1) as nat)
                }
            }
        }
    }
}

/// Which positions the trainer accepts on this input at this budget.
pub open spec fn accepted(xs: Seq<u128>, budget: int) -> Seq<bool> {
    greedy_used(
        xs,
        budget,
        Seq::new(xs.len(), |q: int| false),
        xs[xs.len() - 1],
        xs.len(),
    )
}

/// The positions marked in `used` below `k`, in ascending order.
pub open spec fn trues_below(used: Seq<bool>, k: int) -> Seq<usize>
    decreases k,
{
    if k <= 0 {
        Seq::<usize>::empty()
    } else if used[k - 1] {
        trues_below(used, k - 1).push((k - 1) as usize)
    } else {
        trues_below(used, k - 1)
    }
}

/// The blank positions the trainer lays anchors at, as a function of the
/// sorted input and the budget.
pub open spec fn spec_blanks(xs: Seq<u128>, budget: int) -> Seq<usize> {
    trues_below(accepted(xs, budget), xs.len() as int)
}

/// The greedy only adds accepted positions: whatever is marked at the
/// start stays marked in the result.
proof fn lemma_greedy_grows(
    xs: Seq<u128>,
    budget: int,
    used: Seq<bool>,
    amp1: u128,
    fuel: nat,
    q: int,
)
    requires
        used.len() == xs.len(),
        0 <= q < used.len(),
        used[q],
    ensures
        greedy_used(xs, budget, used, amp1, fuel)[q],
    decreases fuel,
{
    if fuel > 0 {
        let p = pick_gap(xs, used, xs.len() as int);
        if p != -1 {
            let delta = gap_at(xs, p);
            if delta != 0 {
                let d1 = (delta - 1) as u128;
                let amp1_next: u128 = if d1 > amp1 {
                    0u128
                } else {
                    (amp1 - d1) as u128
                };
                let lgc = lg_fp(amp_for_log(amp1));
                let lgn = lg_fp(amp_for_log(amp1_next));
                let gained: int = if lgc > lgn {
                    ((lgc - lgn) * xs.len()) / 65536
                } else {
                    0int
                };
                if gained > budget {
                    lemma_pick_gap_in_range(xs, used, xs.len() as int);
                    lemma_greedy_grows(
                        xs,
                        budget,
                        used.update(p, true),
                        amp1_next,
                        (fuel - 1) as nat,
                        q,
                    );
                }
            }
        }
    }
}

/// The picked position, when one exists, lies inside the sequence.
proof fn lemma_pick_gap_in_range(xs: Seq<u128>, used: Seq<bool>, k: int)
    ensures
        pick_gap(xs, used, k) == -1 || 0 <= pick_gap(xs, used, k) < k,
    decreases k,
{
    if k > 0 {
        lemma_pick_gap_in_range(xs, used, k - 1);
    }
}

/// Raising the budget only removes accepted positions: every gap the
/// higher budget accepts, the lower budget accepts as well.
proof fn lemma_greedy_budget_mono(
    xs: Seq<u128>,
    b1: int,
    b2: int,
    used: Seq<bool>,
    amp1: u128,
    fuel: nat,
    q: int,
)
    requires
        used.len() == xs.len(),
        b1 <= b2,
        0 <= q < used.len(),
        greedy_used(xs, b2, used, amp1, fuel)[q],
    ensures
        greedy_used(xs, b1, used, amp1, fuel)[q],
    decreases fuel,
{
    if fuel > 0 {
        let p = pick_gap(xs, used, xs.len() as int);
        if p != -1 {
            let delta = gap_at(xs, p);
            if delta != 0 {
                let d1 = (delta - 1) as u128;
                let amp1_next: u128 = if d1 > amp1 {
                    0u128
                } else {
                    (amp1 - d1) as u128
                };
                let lgc = lg_fp(amp_for_log(amp1));
                let lgn = lg_fp(amp_for_log(amp1_next));
                let gained: int = if lgc > lgn {
                    ((lgc - lgn) * xs.len()) / 65536
                } else {
                    0int
                };
                lemma_pick_gap_in_range(xs, used, xs.len() as int);
                if gained > b2 {
                    // both budgets accept and continue from the same state
                    lemma_greedy_budget_mono(
                        xs,
                        b1,
                        b2,
                        used.update(p, true),
                        amp1_next,
                        (fuel - 1) as nat,
                        q,
                    );
                } else if gained > b1 {
                    // the higher budget stops here with `used`; the lower
                    // budget goes on, which only marks more positions
                    if used[q] {
                        lemma_greedy_grows(
                            xs,
                            b1,
                            used.update(p, true),
                            amp1_next,
                            (fuel - 1) as nat,
                            q,
                        );
                    }
                }
            }
        }
    }
}

/// Pointwise fewer marks leave fewer listed positions.
proof fn lemma_trues_below_mono(u1: Seq<bool>, u2: Seq<bool>, k: int)
    requires
        u1.len() == u2.len(),
        forall|q: int| 0 <= q < u2.len() && u2[q] ==> u1[q],
        k <= u1.len(),
    ensures
        trues_below(u2, k).len() <= trues_below(u1, k).len(),
    decreases k,
{
    if k > 0 {
        lemma_trues_below_mono(u1, u2, k - 1);
    }
}

/// Budget monotonicity of the anchor count: on a fixed input, a higher
/// header-cost budget never yields more anchors. Together with the
/// trainer's contract this bounds `K` across budgets; the blanks the
/// higher budget accepts are accepted by the lower budget as well.
pub proof fn lemma_budget_monotone_anchors(xs: Seq<u128>, b1: int, b2: int)
    requires
        xs.len() >= 1,
        b1 <= b2,
    ensures
        forall|q: int|
            0 <= q < xs.len() && #[trigger] accepted(xs, b2)[q] ==> accepted(xs, b1)[q],
        spec_blanks(xs, b2).len() <= spec_blanks(xs, b1).len(),
{
    let start = Seq::new(xs.len(), |q: int| false);
    assert forall|q: int|
        0 <= q < xs.len() && #[trigger] accepted(xs, b2)[q] implies accepted(xs, b1)[q] by {
        lemma_greedy_budget_mono(xs, b1, b2, start, xs[xs.len() - 1], xs.len(), q);
    }
    lemma_greedy_len(xs, b1, start, xs[xs.len() - 1], xs.len());
    lemma_greedy_len(xs, b2, start, xs[xs.len() - 1], xs.len());
    lemma_trues_below_mono(accepted(xs, b1), accepted(xs, b2), xs.len() as int);
}

/// The greedy never changes the length of the mark sequence.
proof fn lemma_greedy_len(xs: Seq<u128>, budget: int, used: Seq<bool>, amp1: u128, fuel: nat)
    requires
        used.len() == xs.len(),
    ensures
        greedy_used(xs, budget, used, amp1, fuel).len() == used.len(),
    decreases fuel,
{
    if fuel > 0 {
        let p = pick_gap(xs, used, xs.len() as int);
        if p != -1 {
            let delta = gap_at(xs, p);
            if delta != 0 {
                let d1 = (delta - 1) as u128;
                let amp1_next: u128 = if d1 > amp1 {
                    0u128
                } else {
                    (amp1 - d1) as u128
                };
                let lgc = lg_fp(amp_for_log(amp1));
                let lgn = lg_fp(amp_for_log(amp1_next));
                let gained: int = if lgc > lgn {
                    ((lgc - lgn) * xs.len()) / 65536
                } else {
                    0int
                };
                if gained > budget {
                    lemma_pick_gap_in_range(xs, used, xs.len() as int);
                    lemma_greedy_len(xs, budget, used.update(p, true), amp1_next, (fuel - 1) as nat);
                }
            }
        }
    }
}

/// The compact base of the `j`-th anchor, by the construction rule: zero
/// when anchored at the first input, else one above the end of the
/// previous run.
pub open spec fn anchor_compact_at(xs: Seq<u128>, b: Seq<usize>, j: int) -> int
    decreases j,
{
    if j <= 0 {
        if b[0] == 0 {
            0int
        } else {
            xs[b[0] - 1] + 1
        }
    } else {
        anchor_compact_at(xs, b, j - 1) + (xs[b[j] - 1] - xs[b[j - 1] as int]) + 1
    }
}

/// The anchor table the trainer builds, as a function of the sorted
/// input and the budget.
pub open spec fn trained_anchors(xs: Seq<u128>, budget: int) -> Seq<Anchor> {
    let b = spec_blanks(xs, budget);
    Seq::new(
        b.len(),
        |j: int| Anchor { value: xs[b[j] as int], compact: anchor_compact_at(xs, b, j) as u64 },
    )
}

/// The width the trainer picks, as a function of the sorted input and
/// the budget: `pick_width` of the maximum code.
pub open spec fn trained_width(xs: Seq<u128>, budget: int) -> nat {
    pick_width(fwd(trained_anchors(xs, budget), xs[xs.len() - 1]) as nat)
}

/// Computes `min_width(m)`: the bit width that just holds `m`.
pub fn compute_width(m: u128) -> (w: u8)
    ensures
        w as nat == min_width(m as nat),
        1 <= w <= 128,
{
    proof {
        lemma_u128_width_bound(m as nat);
    }
    let mut w: u8 = 1;
    let mut x: u128 = m;
    while x > 1
        invariant
            1 <= w,
            min_width(m as nat) == min_width(x as nat) + w - 1,
            min_width(m as nat) <= 128,
        decreases x,
    {
        x = x / 2;
        w = w + 1;
        proof {
            lemma_min_width_ge_one(x as nat);
        }
    }
    w
}

proof fn lemma_min_width_ge_one(m: nat)
    ensures
        min_width(m) >= 1,
{
}

/// Computes two to the power `k` for exponents below 128.
fn pow2_exec(k: u32) -> (r: u128)
    requires
        k <= 127,
    ensures
        r as nat == pow2(k as nat),
        r >= 1,
{
    proof {
        vstd::arithmetic::power2::lemma2_to64();
    }
    let mut r: u128 = 1;
    let mut t: u32 = 0;
    while t < k
        invariant
            t <= k <= 127,
            r as nat == pow2(t as nat),
            1 <= r,
        decreases k - t,
    {
        proof {
            vstd::arithmetic::power2::lemma_pow2_adds(t as nat, 1);
            lemma_pow2_127_bound(t as nat);
        }
        r = r * 2;
        t = t + 1;
    }
    r
}

proof fn lemma_pow2_127_bound(t: nat)
    requires
        t <= 126,
    ensures
        pow2(t) * 2 <= u128::MAX,
        pow2(t + 1) == pow2(t) * 2,
{
    vstd::arithmetic::power2::lemma2_to64();
    vstd::arithmetic::power2::lemma2_to64_rest();
    vstd::arithmetic::power2::lemma_pow2_adds(t, 1);
    if t < 126 {
        vstd::arithmetic::power2::lemma_pow2_strictly_increases(t + 1, 127);
    }
    vstd::arithmetic::power2::lemma_pow2_adds(63, 64);
    assert(pow2(127) == pow2(63) * pow2(64));
    assert(pow2(63) * pow2(64) <= u128::MAX) by (nonlinear_arith)
        requires
            pow2(63) == 0x8000000000000000,
            pow2(64) == 0x10000000000000000,
    ;
}

/// A fixed-point base-two logarithm with sixteen fractional bits: the
/// result sits between the logs of the neighbouring powers of two, and
/// drives the trainer's estimate of the body bits a gap removal saves.
fn log2_fp(x: u128) -> (r: u64)
    requires
        x >= 1,
    ensures
        (min_width(x as nat) - 1) * 65536 <= r < min_width(x as nat) * 65536,
        r < 0x800000,
        r as int == lg_fp(x),
{
    let w = compute_width(x);
    let e: u64 = (w - 1) as u64;
    proof {
        lemma_min_width_fits(x as nat);
        vstd::arithmetic::power2::lemma2_to64();
        vstd::arithmetic::power2::lemma2_to64_rest();
        if w >= 34 {
            vstd::arithmetic::power2::lemma_pow2_adds((w - 33) as nat, 33);
        } else {
            vstd::arithmetic::power2::lemma_pow2_adds((33 - w) as nat, w as nat);
        }
    }
    let m0: u128 = if w <= 33 {
        let f = pow2_exec((33 - w) as u32);
        assert((x as nat) * (f as nat) < pow2(33)) by (nonlinear_arith)
            requires
                (x as nat) < pow2(w as nat),
                f >= 1,
                f as nat == pow2((33 - w) as nat),
                pow2((33 - w) as nat) * pow2(w as nat) == pow2(33nat),
        ;
        assert(pow2(33nat) <= u128::MAX);
        x * f
    } else {
        let f = pow2_exec((w - 33) as u32);
        let q = x / f;
        assert((q as nat) < pow2(33)) by (nonlinear_arith)
            requires
                (x as nat) < pow2(w as nat),
                f as nat == pow2((w - 33) as nat),
                f >= 1,
                pow2((w - 33) as nat) * pow2(33nat) == pow2(w as nat),
                q as nat == (x as nat) / (f as nat),
        ;
        q
    };
    assert((m0 as nat) < pow2(33));
    assert(m0 as nat == lg_norm(x));
    assert(pow2(33nat) == 0x200000000) by {
        vstd::arithmetic::power2::lemma2_to64_rest();
    }
    let mut m: u128 = m0;
    let mut frac: u64 = 0;
    let mut it: usize = 0;
    while it < 16
        invariant
            it <= 16,
            m < 0x200000000u128,
            frac < 0x10000,
            (frac as nat) < pow2(it as nat),
            lg_frac(lg_norm(x), 16) == (frac as nat) * pow2((16 - it) as nat) + lg_frac(
                m as nat,
                (16 - it) as nat,
            ),
        decreases 16 - it,
    {
        proof {
            vstd::arithmetic::power2::lemma2_to64();
            assert((m as nat) * (m as nat) < 0x40000000000000000) by (nonlinear_arith)
                requires
                    m < 0x200000000u128,
            ;
            vstd::arithmetic::power2::lemma_pow2_adds(it as nat, 1);
            vstd::arithmetic::power2::lemma_pow2_adds((15 - it) as nat, 1);
        }
        let ghost m_in = m as nat;
        let ghost frac_in = frac as nat;
        let msq: u128 = m * m;
        proof {
            vstd::arithmetic::div_mod::lemma_multiply_divide_lt(
                msq as int,
                0x100000000int,
                0x400000000int,
            );
        }
        m = msq / 0x100000000u128;
        frac = frac * 2;
        if m >= 0x200000000u128 {
            frac = frac + 1;
            m = m / 2;
        }
        proof {
            // One unfolding of the fractional-bit recursion matches this round.
            let rounds = (16 - it) as nat;
            let m2 = (m_in * m_in) / 0x100000000;
            assert(lg_frac(m_in, rounds) == (if m2 >= 0x200000000 {
                pow2((rounds - 1) as nat) + lg_frac(m2 / 2, (rounds - 1) as nat)
            } else {
                lg_frac(m2, (rounds - 1) as nat)
            }));
            assert((2 * frac_in) * pow2((15 - it) as nat) == frac_in * pow2((16 - it) as nat))
                by (nonlinear_arith)
                requires
                    pow2((16 - it) as nat) == pow2((15 - it) as nat) * 2,
            ;
            assert((2 * frac_in + 1) * pow2((15 - it) as nat) == frac_in * pow2((16 - it) as nat)
                + pow2((15 - it) as nat)) by (nonlinear_arith)
                requires
                    pow2((16 - it) as nat) == pow2((15 - it) as nat) * 2,
            ;
        }
        it = it + 1;
    }
    proof {
        vstd::arithmetic::power2::lemma2_to64();
        assert(pow2(0nat) == 1);
        assert((16 - it) as nat == 0nat);
        assert(lg_frac(m as nat, 0) == 0);
        assert((frac as nat) * pow2(0nat) == frac as nat) by (nonlinear_arith)
            requires
                pow2(0nat) == 1,
        ;
        assert(lg_frac(lg_norm(x), 16) == frac as nat);
        assert(lg_fp(x) == (min_width(x as nat) - 1) * 65536 + lg_frac(lg_norm(x), 16));
    }
    e * 65536 + frac
}

/// No 128-bit value needs more than 128 bits.
proof fn lemma_u128_width_bound(m: nat)
    requires
        m <= u128::MAX,
    ensures
        min_width(m) <= 128,
{
    vstd::arithmetic::power2::lemma2_to64();
    vstd::arithmetic::power2::lemma_pow2_adds(64, 64);
    assert(pow2(64) * pow2(64) - 1 == u128::MAX) by (nonlinear_arith)
        requires
            pow2(64) == 0x10000000000000000,
    ;
    lemma_min_width_le(m, 128);
}

/// Index of the greatest blank position at or below `p`; -1 if none.
pub open spec fn blk_at(b: Seq<usize>, p: int) -> int
    decreases b.len(),
{
    if b.len() == 0 {
        -1
    } else if b[b.len() - 1] <= p {
        b.len() - 1
    } else {
        blk_at(b.drop_last(), p)
    }
}

/// Index of the greatest input value strictly below `z`; -1 if none.
pub open spec fn below_idx(xs: Seq<u128>, z: u128) -> int
    decreases xs.len(),
{
    if xs.len() == 0 {
        -1
    } else if xs[xs.len() - 1] < z {
        xs.len() - 1
    } else {
        below_idx(xs.drop_last(), z)
    }
}

pub proof fn lemma_below_idx_props(xs: Seq<u128>, z: u128)
    ensures
        -1 <= below_idx(xs, z) < xs.len(),
        below_idx(xs, z) >= 0 ==> xs[below_idx(xs, z)] < z,
        forall|j: int| below_idx(xs, z) < j < xs.len() ==> (#[trigger] xs[j]) >= z,
    decreases xs.len(),
{
    if xs.len() > 0 && xs[xs.len() - 1] >= z {
        lemma_below_idx_props(xs.drop_last(), z);
        assert(forall|j: int| 0 <= j < xs.len() - 1 ==> xs.drop_last()[j] == xs[j]);
    }
}

pub proof fn lemma_below_idx_bracket(xs: Seq<u128>, z: u128, i: int)
    requires
        sort::sorted(xs),
        -1 <= i < xs.len(),
        i >= 0 ==> xs[i] < z,
        i + 1 < xs.len() ==> xs[i + 1] >= z,
        i == -1 && xs.len() > 0 ==> xs[0] >= z,
    ensures
        below_idx(xs, z) == i,
{
    lemma_below_idx_props(xs, z);
    let k = below_idx(xs, z);
    if k < i {
        assert(xs[i] >= z);
        assert(false);
    } else if k > i {
        assert(xs[k] < z);
        if i + 1 < k {
            assert(xs[i + 1] <= xs[k]);
        }
        assert(false);
    }
}

pub proof fn lemma_blk_at_props(b: Seq<usize>, p: int)
    ensures
        -1 <= blk_at(b, p) < b.len(),
        blk_at(b, p) >= 0 ==> b[blk_at(b, p)] <= p,
        forall|t: int| blk_at(b, p) < t < b.len() ==> (#[trigger] b[t]) > p,
    decreases b.len(),
{
    if b.len() > 0 && b[b.len() - 1] > p {
        lemma_blk_at_props(b.drop_last(), p);
        assert(forall|t: int| 0 <= t < b.len() - 1 ==> b.drop_last()[t] == b[t]);
    }
}

/// The anchor table that the trainer builds from the blank positions
/// covers every input value: each value's compact code stays inside its
/// anchor's run.
pub proof fn lemma_run_covered(xs: Seq<u128>, b: Seq<usize>, a: Seq<Anchor>, k0: int)
    requires
        sort::sorted(xs),
        0 <= k0 < xs.len(),
        a.len() == b.len(),
        forall|t: int| 0 <= t < b.len() ==> (#[trigger] b[t]) < xs.len(),
        forall|t: int, u: int| 0 <= t < u < b.len() ==> b[t] < b[u],
        forall|t: int| 0 <= t < b.len() && (#[trigger] b[t]) >= 1 ==> xs[b[t] - 1] < xs[b[t] as int],
        forall|t: int| 0 <= t < b.len() ==> (#[trigger] a[t]).value == xs[b[t] as int],
        b.len() > 0 ==> a[0].compact as int == (if b[0] == 0 {
            0int
        } else {
            xs[b[0] - 1] + 1
        }),
        forall|t: int|
            1 <= t < a.len() ==> (#[trigger] a[t]).compact == a[t - 1].compact + (xs[b[t] - 1] - a[t
                - 1].value) + 1,
        anchors_sorted(a),
    ensures
        covered(a, xs[k0]),
{
    let v = xs[k0];
    lemma_blk_at_props(b, k0);
    let j = blk_at(b, k0);
    if j == -1 {
        if b.len() == 0 {
            assert(idx_at(a, v) == -1);
        } else {
            assert(b[0] > k0);
            assert(b[0] >= 1);
            assert(v <= xs[b[0] - 1]);
            assert(v < xs[b[0] as int]);
            lemma_idx_at_bracket(a, v, -1);
            assert((v as int) < a[0].compact);
        }
    } else {
        assert(b[j] <= k0);
        assert(a[j].value == xs[b[j] as int] <= v);
        if j + 1 < a.len() {
            assert(b[j + 1] > k0);
            assert(b[j + 1] >= 1);
            assert(v <= xs[b[j + 1] - 1]);
            assert(v < xs[b[j + 1] as int]);
        }
        lemma_idx_at_bracket(a, v, j);
        if j + 1 < a.len() {
            assert(fwd(a, v) == a[j].compact + (v - a[j].value));
            assert(a[j + 1].compact == a[j].compact + (xs[b[j + 1] - 1] - a[j].value) + 1);
            assert(v <= xs[b[j + 1] - 1]);
        }
    }
}

/// The trained forward map and the bit width of its code space.
pub struct Compressor {
    pub anchors: Vec<Anchor>,
    pub num_bits: u8,
}

impl Compressor {
    /// The anchor table is well formed and the width is one the bit
    /// unpacker accepts.
    pub open spec fn wf(self) -> bool {
        &&& anchors_wf(self.anchors@)
        &&& (1 <= self.num_bits <= 56 || self.num_bits == 64)
    }
}

/// Binary search for the greatest anchor whose value is at or below `v`.
fn find_value_anchor(anchors: &Vec<Anchor>, v: u128) -> (r: Option<usize>)
    requires
        anchors_sorted(anchors@),
    ensures
        match r {
            Some(i) => i < anchors@.len() && idx_at(anchors@, v) == i as int,
            None => idx_at(anchors@, v) == -1,
        },
{
    let mut lo: usize = 0;
    let mut hi: usize = anchors.len();
    while lo < hi
        invariant
            anchors_sorted(anchors@),
            lo <= hi <= anchors@.len(),
            forall|j: int| 0 <= j < lo ==> (#[trigger] anchors@[j]).value <= v,
            forall|j: int| hi <= j < anchors@.len() ==> (#[trigger] anchors@[j]).value > v,
        decreases hi - lo,
    {
        let mid = lo + (hi - lo) / 2;
        if anchors[mid].value <= v {
            lo = mid + 1;
        } else {
            hi = mid;
        }
    }
    if lo == 0 {
        proof {
            lemma_idx_at_bracket(anchors@, v, -1);
        }
        None
    } else {
        proof {
            lemma_idx_at_bracket(anchors@, v, lo - 1);
        }
        Some(lo - 1)
    }
}

impl Compressor {
    /// Maps a value to its compact code through the greatest anchor at or
    /// below it; values below every anchor map to themselves.
    pub fn to_compact(&self, ip_addr: u128) -> (r: u64)
        requires
            anchors_sorted(self.anchors@),
            0 <= fwd(self.anchors@, ip_addr) <= u64::MAX,
        ensures
            r as int == fwd(self.anchors@, ip_addr),
    {
        proof {
            lemma_idx_at_props(self.anchors@, ip_addr);
        }
        match find_value_anchor(&self.anchors, ip_addr) {
            Some(i) => {
                let a = self.anchors[i];
                assert(ip_addr - a.value <= u64::MAX);
                a.compact + ((ip_addr - a.value) as u64)
            },
            None => ip_addr as u64,
        }
    }
}

/// The compact bases the construction loop lays down follow the
/// recursion `anchor_compact_at` exactly.
proof fn lemma_anchor_compacts(xs: Seq<u128>, b: Seq<usize>, a: Seq<Anchor>, j: int)
    requires
        a.len() == b.len(),
        0 <= j < a.len(),
        a.len() > 0 ==> a[0].compact as int == (if b[0] == 0 {
            0int
        } else {
            xs[b[0] - 1] + 1
        }),
        forall|u: int|
            1 <= u < a.len() ==> (#[trigger] a[u]).compact == a[u - 1].compact + (xs[b[u] - 1]
                - a[u - 1].value) + 1,
        forall|u: int| 0 <= u < a.len() ==> (#[trigger] a[u]).value == xs[b[u] as int],
    ensures
        a[j].compact as int == anchor_compact_at(xs, b, j),
    decreases j,
{
    if j > 0 {
        lemma_anchor_compacts(xs, b, a, j - 1);
        assert(a[j].compact == a[j - 1].compact + (xs[b[j] - 1] - a[j - 1].value) + 1);
        assert(a[j - 1].value == xs[b[j - 1] as int]);
    }
}

/// Trains an anchor map on a sorted, non-empty input. The trainer pops
/// the largest gaps first and keeps accepting while the estimated body
/// saving exceeds the header cost budget; it then lays anchors at the
/// accepted gap starts. Fails exactly when the compact code space still
/// needs more than 64 bits, which can only happen when the largest input
/// does not fit in 64 bits.
#[verifier::rlimit(100)]
pub fn train(ip_addrs_sorted: &Vec<u128>, cost_in_bits: usize) -> (r: Result<
    Compressor,
    EncodeError,
>)
    requires
        sort::sorted(ip_addrs_sorted@),
        ip_addrs_sorted@.len() >= 1,
    ensures
        match r {
            Ok(c) => {
                &&& c.wf()
                &&& forall|k: int|
                    0 <= k < ip_addrs_sorted@.len() ==> covered(
                        c.anchors@,
                        #[trigger] ip_addrs_sorted@[k],
                    ) && 0 <= fwd(c.anchors@, ip_addrs_sorted@[k]) <= u64::MAX && fwd(
                        c.anchors@,
                        ip_addrs_sorted@[k],
                    ) < pow2(c.num_bits as nat) && fwd(c.anchors@, ip_addrs_sorted@[k])
                        <= ip_addrs_sorted@[k]
                &&& c.num_bits as nat == pick_width(
                    fwd(
                        c.anchors@,
                        ip_addrs_sorted@[ip_addrs_sorted@.len() - 1],
                    ) as nat,
                )
                &&& forall|u: int|
                    0 <= u < c.anchors@.len() ==> ip_addrs_sorted@.contains(
                        (#[trigger] c.anchors@[u]).value,
                    ) && c.anchors@[u].compact <= c.anchors@[u].value
                &&& c.anchors@.len() > 0 ==> c.anchors@[0].compact as int == (if c.anchors@[0].value
                    == ip_addrs_sorted@[0] {
                    0int
                } else {
                    ip_addrs_sorted@[below_idx(ip_addrs_sorted@, c.anchors@[0].value)] + 1
                })
                &&& forall|u: int|
                    1 <= u < c.anchors@.len() ==> (#[trigger] c.anchors@[u]).compact as int
                        == c.anchors@[u - 1].compact + (ip_addrs_sorted@[below_idx(
                        ip_addrs_sorted@,
                        c.anchors@[u].value,
                    )] - c.anchors@[u - 1].value) + 1
                &&& (cost_in_bits as int) >= 128 * ip_addrs_sorted@.len() ==> c.anchors@.len()
                    == 0
                &&& c.anchors@ == trained_anchors(ip_addrs_sorted@, cost_in_bits as int)
                &&& c.num_bits as nat == trained_width(ip_addrs_sorted@, cost_in_bits as int)
            },
            Err(e) => {
                &&& e == EncodeError::AmplitudeTooLarge
                &&& ip_addrs_sorted@[ip_addrs_sorted@.len() - 1] > u64::MAX
            },
        },
{
    broadcast use vstd::std_specs::vec::group_vec_axioms;

    let xs = ip_addrs_sorted;
    let n = xs.len();
    let last = xs[n - 1];

    // The gap below each position: at 0 the distance up from the implicit
    // lower bound just below zero, elsewhere the step from the neighbour.
    let mut gaps: Vec<u128> = Vec::new();
    let first_gap: u128 = if xs[0] == u128::MAX {
        u128::MAX
    } else {
        xs[0] + 1
    };
    gaps.push(first_gap);
    let mut k: usize = 1;
    while k < n
        invariant
            sort::sorted(xs@),
            xs@.len() == n,
            1 <= k <= n,
            gaps@.len() == k,
            gaps@[0] >= 1,
            forall|t: int| 1 <= t < k ==> gaps@[t] == xs@[t] - xs@[t - 1],
            forall|t: int| 0 <= t < k ==> gaps@[t] == gap_at(xs@, t),
        decreases n - k,
    {
        gaps.push(xs[k] - xs[k - 1]);
        k = k + 1;
    }

    // Greedy gap removal, largest gap first; the running width of the
    // remaining code space drives the stop rule.
    let mut used: Vec<bool> = Vec::new();
    let mut p0: usize = 0;
    while p0 < n
        invariant
            p0 <= n,
            used@.len() == p0,
            forall|q: int| 0 <= q < p0 ==> !used@[q],
        decreases n - p0,
    {
        used.push(false);
        p0 = p0 + 1;
    }
    proof {
        assert(used@ =~= Seq::new(n as nat, |q: int| false));
    }
    let mut amp1: u128 = last;
    let mut iter: usize = 0;
    let mut picking = true;
    while picking
        invariant
            sort::sorted(xs@),
            xs@.len() == n >= 1,
            last == xs@[n - 1],
            gaps@.len() == n,
            used@.len() == n,
            iter <= n,
            gaps@[0] >= 1,
            forall|t: int| 1 <= t < n ==> gaps@[t] == xs@[t] - xs@[t - 1],
            forall|t: int| 0 <= t < n ==> gaps@[t] == gap_at(xs@, t),
            forall|q: int| 0 <= q < n && used@[q] ==> (q == 0 || xs@[q - 1] < xs@[q]),
            (cost_in_bits as int) >= 128 * (n as int) ==> (forall|q: int|
                0 <= q < n ==> !used@[q]),
            greedy_used(xs@, cost_in_bits as int, used@, amp1, (n - iter) as nat) == accepted(
                xs@,
                cost_in_bits as int,
            ),
            !picking ==> used@ == accepted(xs@, cost_in_bits as int),
        decreases (n - iter) + (if picking {
            1int
        } else {
            0int
        }),
    {
        if iter >= n {
            // Out of rounds: the recursion is out of fuel at this state.
            picking = false;
        } else {
            let ghost fuel = (n - iter) as nat;
            let mut best_pos: usize = 0;
            let mut best_delta: u128 = 0;
            let mut found = false;
            let mut k2: usize = 0;
            while k2 < n
                invariant
                    gaps@.len() == n,
                    used@.len() == n,
                    forall|t: int| 0 <= t < n ==> gaps@[t] == gap_at(xs@, t),
                    k2 <= n,
                    found <==> pick_gap(xs@, used@, k2 as int) != -1,
                    found ==> best_pos < n && best_pos as int == pick_gap(xs@, used@, k2 as int)
                        && gaps@[best_pos as int] == best_delta,
                decreases n - k2,
            {
                if !used[k2] {
                    if !found || gaps[k2] >= best_delta {
                        found = true;
                        best_pos = k2;
                        best_delta = gaps[k2];
                    }
                }
                k2 = k2 + 1;
            }
            proof {
                if !found {
                    assert(greedy_used(xs@, cost_in_bits as int, used@, amp1, fuel) == used@);
                }
            }
            if !found {
                picking = false;
            } else {
                proof {
                    if best_delta == 0 {
                        assert(greedy_used(xs@, cost_in_bits as int, used@, amp1, fuel) == used@);
                    }
                }
                if best_delta == 0 {
                    picking = false;
                } else {
                    // Removing the gap keeps one unit, so the code space
                    // shrinks by delta - 1; the saving is the drop of the
                    // fixed-point width times the value count, scaled back
                    // down to whole bits.
                    let d1 = best_delta - 1;
                    let amp1_next: u128 = if d1 > amp1 {
                        0
                    } else {
                        amp1 - d1
                    };
                    let lg_cur = log2_fp(if amp1 == u128::MAX {
                        amp1
                    } else {
                        amp1 + 1
                    });
                    let lg_next = log2_fp(if amp1_next == u128::MAX {
                        amp1_next
                    } else {
                        amp1_next + 1
                    });
                    let gained: u128 = if lg_cur > lg_next {
                        assert(((lg_cur - lg_next) as u128) * (n as u128) <= u128::MAX)
                            by (nonlinear_arith)
                            requires
                                ((lg_cur - lg_next) as u128) < 0x1000000,
                                (n as u128) < 0x10000000000000000,
                        ;
                        (((lg_cur - lg_next) as u128) * (n as u128)) / 65536
                    } else {
                        0
                    };
                    proof {
                        // The executable step computes exactly the spec step.
                        assert(lg_cur as int == lg_fp(amp_for_log(amp1)));
                        assert(lg_next as int == lg_fp(amp_for_log(amp1_next)));
                        assert(gained as int == (if lg_fp(amp_for_log(amp1)) > lg_fp(
                            amp_for_log(amp1_next),
                        ) {
                            ((lg_fp(amp_for_log(amp1)) - lg_fp(amp_for_log(amp1_next))) * (
                            n as int)) / 65536
                        } else {
                            0int
                        }));
                    }
                    if gained <= cost_in_bits as u128 {
                        proof {
                            assert(greedy_used(xs@, cost_in_bits as int, used@, amp1, fuel)
                                == used@);
                        }
                        picking = false;
                    } else {
                        proof {
                            // The estimated saving is below 128 bits per value,
                            // so a budget of 128 bits per value or more
                            // declines every gap.
                            if (cost_in_bits as int) >= 128 * (n as int) {
                                assert(lg_cur > lg_next);
                                assert(((lg_cur - lg_next) as u128 as int) * (n as int) < 65536 * (
                                128 * (n as int))) by (nonlinear_arith)
                                    requires
                                        ((lg_cur - lg_next) as u128 as int) < 0x800000,
                                        n >= 1,
                                ;
                                vstd::arithmetic::div_mod::lemma_multiply_divide_lt(
                                    ((lg_cur - lg_next) as u128 as int) * (n as int),
                                    65536int,
                                    128 * (n as int),
                                );
                                assert((gained as int) < 128 * (n as int));
                                assert(false);
                            }
                            let ghost used1 = used@.update(best_pos as int, true);
                            assert(greedy_used(xs@, cost_in_bits as int, used@, amp1, fuel)
                                == greedy_used(
                                xs@,
                                cost_in_bits as int,
                                used1,
                                amp1_next,
                                (fuel - 1) as nat,
                            ));
                        }
                        used.set(best_pos, true);
                        amp1 = amp1_next;
                        iter = iter + 1;
                    }
                }
            }
        }
    }

    // The accepted positions, ascending.
    let mut blanks: Vec<usize> = Vec::new();
    proof {
        assert(blanks@ =~= trues_below(used@, 0));
    }
    let mut p: usize = 0;
    while p < n
        invariant
            sort::sorted(xs@),
            xs@.len() == n >= 1,
            used@.len() == n,
            used@ == accepted(xs@, cost_in_bits as int),
            blanks@ == trues_below(used@, p as int),
            p <= n,
            forall|q: int| 0 <= q < n && used@[q] ==> (q == 0 || xs@[q - 1] < xs@[q]),
            forall|u: int| 0 <= u < blanks@.len() ==> (#[trigger] blanks@[u]) < p,
            forall|u: int, w: int| 0 <= u < w < blanks@.len() ==> blanks@[u] < blanks@[w],
            forall|u: int|
                0 <= u < blanks@.len() && (#[trigger] blanks@[u]) >= 1 ==> xs@[blanks@[u] - 1]
                    < xs@[blanks@[u] as int],
            forall|u: int| 0 <= u < blanks@.len() ==> (#[trigger] blanks@[u]) < n,
            (cost_in_bits as int) >= 128 * (n as int) ==> ((forall|q: int|
                0 <= q < n ==> !used@[q]) && blanks@.len() == 0),
        decreases n - p,
    {
        if used[p] {
            blanks.push(p);
        }
        p = p + 1;
    }

    // Lay the anchors: every accepted blank starts a new run one code
    // above the end of the previous one.
    let mut anchors: Vec<Anchor> = Vec::new();
    let mut offset: u128 = 0;
    let mut prev_base: u128 = 0;
    let mut t: usize = 0;
    while t < blanks.len()
        invariant
            sort::sorted(xs@),
            xs@ == ip_addrs_sorted@,
            xs@.len() == n >= 1,
            last == xs@[n - 1],
            forall|u: int, w: int| 0 <= u < w < blanks@.len() ==> blanks@[u] < blanks@[w],
            forall|u: int|
                0 <= u < blanks@.len() && (#[trigger] blanks@[u]) >= 1 ==> xs@[blanks@[u] - 1]
                    < xs@[blanks@[u] as int],
            forall|u: int| 0 <= u < blanks@.len() ==> (#[trigger] blanks@[u]) < n,
            blanks@ == spec_blanks(xs@, cost_in_bits as int),
            t <= blanks@.len(),
            (cost_in_bits as int) >= 128 * (n as int) ==> blanks@.len() == 0,
            anchors@.len() == t,
            forall|u: int|
                0 <= u < t ==> (#[trigger] anchors@[u]).value == xs@[blanks@[u] as int],
            t > 0 ==> anchors@[0].compact as int == (if blanks@[0] == 0 {
                0int
            } else {
                xs@[blanks@[0] - 1] + 1
            }),
            forall|u: int|
                1 <= u < t ==> (#[trigger] anchors@[u]).compact == anchors@[u - 1].compact + (
                xs@[blanks@[u] - 1] - anchors@[u - 1].value) + 1,
            anchors_sorted(anchors@),
            forall|u: int|
                0 <= u < t ==> (#[trigger] anchors@[u]).compact <= anchors@[u].value,
            t > 0 ==> offset == anchors@[t - 1].compact && prev_base == anchors@[t - 1].value,
            t == 0 ==> offset == 0 && prev_base == 0,
            offset <= prev_base,
            t > 0 ==> prev_base <= xs@[n - 1],
        decreases blanks.len() - t,
    {
        let pos = blanks[t];
        if pos == 0 {
            proof {
                if t > 0 {
                    assert(blanks@[0] < blanks@[t as int]);
                }
            }
            anchors.push(
                Anchor { value: xs[0], compact: 0 },
            );
            prev_base = xs[0];
        } else {
            proof {
                if t > 0 {
                    assert(blanks@[t - 1] < blanks@[t as int]);
                    assert(prev_base == xs@[blanks@[t - 1] as int]);
                    assert(xs@[blanks@[t - 1] as int] <= xs@[pos - 1]);
                }
                assert(xs@[pos - 1] < xs@[pos as int]);
            }
            let inc = xs[pos - 1] - prev_base;
            let new_offset = offset + inc + 1;
            assert(new_offset <= xs@[pos as int]);
            if new_offset > u64::MAX as u128 {
                proof {
                    assert(xs@[pos as int] <= xs@[n - 1]);
                }
                return Err(EncodeError::AmplitudeTooLarge);
            }
            anchors.push(Anchor { value: xs[pos], compact: new_offset as u64 });
            offset = new_offset;
            prev_base = xs[pos];
        }
        t = t + 1;
    }

    // The largest code the map produces; the code space is one larger.
    let mc: u128 = if anchors.len() == 0 {
        last
    } else {
        offset + (last - prev_base)
    };
    if mc > u64::MAX as u128 {
        return Err(EncodeError::AmplitudeTooLarge);
    }
    proof {
        if anchors@.len() == 0 {
            assert(idx_at(anchors@, last) == -1);
        } else {
            lemma_idx_at_bracket(anchors@, last, anchors@.len() - 1);
        }
        assert(fwd(anchors@, last) == mc);
    }
    let w0 = compute_width(mc);
    let num_bits: u8 = if w0 >= 57 && w0 <= 63 {
        64
    } else {
        w0
    };
    let ghost a = anchors@;
    let ghost b = blanks@;
    proof {
        vstd::arithmetic::power2::lemma2_to64();
        lemma_min_width_le(mc as nat, 64);
        lemma_min_width_fits(mc as nat);
        if (min_width(mc as nat) as u8) < num_bits {
            vstd::arithmetic::power2::lemma_pow2_strictly_increases(
                min_width(mc as nat),
                num_bits as nat,
            );
        }
        assert(anchors_contract(a)) by {
            assert forall|i: int| 0 <= i < a.len() - 1 implies (#[trigger] a[i + 1]).compact
                - a[i].compact <= a[i + 1].value - a[i].value by {
                assert(a[i + 1].compact == a[i].compact + (xs@[b[i + 1] - 1] - a[i].value) + 1);
                assert(b[i] < b[i + 1]);
                assert(xs@[b[i + 1] - 1] < xs@[b[i + 1] as int]);
            }
        }
        assert forall|u: int| 0 <= u < a.len() implies xs@.contains((#[trigger] a[u]).value)
            && a[u].compact <= a[u].value by {
            assert(a[u].value == xs@[b[u] as int]);
        }
        if a.len() > 0 {
            if b[0] == 0 {
                assert(a[0].value == xs@[0]);
            } else {
                assert(xs@[b[0] - 1] < a[0].value);
                assert(xs@[0] <= xs@[b[0] - 1]);
                lemma_below_idx_bracket(xs@, a[0].value, b[0] - 1);
            }
        }
        assert forall|u: int| 1 <= u < a.len() implies (#[trigger] a[u]).compact as int == a[u
            - 1].compact + (xs@[below_idx(xs@, a[u].value)] - a[u - 1].value) + 1 by {
            assert(b[u - 1] < b[u]);
            assert(xs@[b[u] - 1] < a[u].value);
            lemma_below_idx_bracket(xs@, a[u].value, b[u] - 1);
            assert(a[u].compact == a[u - 1].compact + (xs@[b[u] - 1] - a[u - 1].value) + 1);
        }
        assert(b == spec_blanks(xs@, cost_in_bits as int));
        assert forall|j: int| 0 <= j < a.len() implies a[j] == trained_anchors(
            xs@,
            cost_in_bits as int,
        )[j] by {
            lemma_anchor_compacts(xs@, b, a, j);
            assert(0 <= anchor_compact_at(xs@, b, j) <= u64::MAX);
            assert(trained_anchors(xs@, cost_in_bits as int)[j] == (Anchor {
                value: xs@[b[j] as int],
                compact: anchor_compact_at(xs@, b, j) as u64,
            }));
        }
        assert(a =~= trained_anchors(xs@, cost_in_bits as int));
        assert(trained_width(xs@, cost_in_bits as int) == pick_width(fwd(a, last) as nat));
        assert forall|k3: int| 0 <= k3 < xs@.len() implies covered(a, #[trigger] xs@[k3]) && 0
            <= fwd(a, xs@[k3]) <= u64::MAX && fwd(a, xs@[k3]) < pow2(num_bits as nat) && fwd(
            a,
            xs@[k3],
        ) <= xs@[k3] by {
            lemma_run_covered(xs@, b, a, k3);
            lemma_run_covered(xs@, b, a, xs@.len() - 1);
            if xs@[k3] < last {
                lemma_fwd_monotone(a, xs@[k3], last);
            } else {
                assert(xs@[k3] == last);
            }
            lemma_idx_at_props(a, xs@[k3]);
            let j = idx_at(a, xs@[k3]);
            if j >= 0 {
                assert(a[j].compact <= a[j].value);
            }
        }
    }
    Ok(Compressor { anchors, num_bits })
}

/// The header's anchor records: each anchor as a pair of deltas to its
/// predecessor, both as variable-length integers.
pub open spec fn anchors_delta_bytes(a: Seq<Anchor>, prev_v: u128, prev_c: u64) -> Seq<u8>
    decreases a.len(),
{
    if a.len() == 0 {
        Seq::<u8>::empty()
    } else {
        vint::vint_bytes((a[0].value - prev_v) as nat) + vint::vint_bytes(
            (a[0].compact - prev_c) as nat,
        ) + anchors_delta_bytes(a.drop_first(), a[0].value, a[0].compact)
    }
}

/// The container header: anchor count, anchor deltas, bit width byte.
pub open spec fn header_bytes(a: Seq<Anchor>, nb: u8) -> Seq<u8> {
    vint::vint_bytes(a.len() as nat) + anchors_delta_bytes(a, 0, 0) + seq![nb]
}

/// The transcript the compressor hands the bit packer: each value's
/// compact code at the trained width.
pub open spec fn codes_transcript(a: Seq<Anchor>, nb: u8, xs: Seq<u128>) -> Seq<(u64, u8)> {
    Seq::new(xs.len(), |i: int| ((fwd(a, xs[i]) as u64), nb))
}

/// The whole container: header, value count, packed body.
pub open spec fn container_bytes(a: Seq<Anchor>, nb: u8, xs: Seq<u128>) -> Seq<u8> {
    header_bytes(a, nb) + vint::vint_bytes(xs.len() as nat) + pack::packed_bytes(
        codes_transcript(a, nb, xs),
    )
}

/// The anchor map `a` with width `nb` encodes `xs` soundly: the map is
/// well formed, every value is covered and its code fits the width, and
/// the packed body has its announced length.
pub open spec fn valid_encoding(a: Seq<Anchor>, nb: u8, xs: Seq<u128>) -> bool {
    &&& anchors_wf(a)
    &&& (1 <= nb <= 56 || nb == 64)
    &&& 1 <= xs.len() <= u32::MAX as int
    &&& xs.len() * (nb as int) <= usize::MAX as int
    &&& forall|i: int|
        0 <= i < xs.len() ==> covered(a, #[trigger] xs[i]) && 0 <= fwd(a, xs[i]) <= u64::MAX && fwd(
            a,
            xs[i],
        ) < pow2(nb as nat)
    &&& pack::packed_bytes(codes_transcript(a, nb, xs)).len() == (xs.len() * (nb as int) + 7) / 8
}

/// `data` is the container that encodes exactly the sequence `xs`.
/// The empty sequence is encoded by the empty byte stream.
pub open spec fn is_container_for(data: Seq<u8>, xs: Seq<u128>) -> bool {
    if xs.len() == 0 {
        data.len() == 0
    } else {
        exists|a: Seq<Anchor>, nb: u8|
            valid_encoding(a, nb, xs) && data == container_bytes(a, nb, xs)
    }
}

/// Splitting a known suffix decomposition of `data` at a concatenation
/// boundary.
pub proof fn lemma_prefix_of_suffix(data: Seq<u8>, pos: int, x: Seq<u8>, y: Seq<u8>)
    requires
        0 <= pos <= data.len(),
        data.subrange(pos, data.len() as int) == x + y,
    ensures
        pos + x.len() + y.len() == data.len(),
        data.subrange(pos, pos + x.len() as int) == x,
        data.subrange(pos + x.len() as int, data.len() as int) == y,
{
    let s = data.subrange(pos, data.len() as int);
    assert(s.len() == x.len() + y.len());
    assert(data.subrange(pos, pos + x.len() as int) =~= x) by {
        assert(forall|i: int| 0 <= i < x.len() ==> data[pos + i] == s[i] && s[i] == x[i]);
    }
    assert(data.subrange(pos + x.len() as int, data.len() as int) =~= y) by {
        assert(forall|i: int|
            0 <= i < y.len() ==> data[pos + x.len() + i] == s[x.len() + i] && s[x.len() + i]
                == y[i]);
    }
}

impl Compressor {
    /// Emits the self-describing header: the anchor count, then each
    /// anchor as value and compact deltas, then the bit width byte.
    #[verifier::rlimit(100)]
    #[verifier::spinoff_prover]
    pub fn write_header(&self, output: &mut Vec<u8>)
        requires
            old(output)@.len() == 0,
            self.wf(),
        ensures
            final(output)@ == header_bytes(self.anchors@, self.num_bits),
    {
        let ghost a = self.anchors@;
        vint::serialize_vint(self.anchors.len() as u128, output);
        proof {
            assert(a.subrange(0, a.len() as int) =~= a);
            assert(output@ =~= vint::vint_bytes(a.len() as nat));
        }
        let mut prev_ip: u128 = 0;
        let mut prev_compact: u64 = 0;
        let mut i: usize = 0;
        while i < self.anchors.len()
            invariant
                self.wf(),
                a == self.anchors@,
                i <= a.len(),
                i > 0 ==> prev_ip == a[i - 1].value && prev_compact == a[i - 1].compact,
                i == 0 ==> prev_ip == 0 && prev_compact == 0,
                output@ + anchors_delta_bytes(a.subrange(i as int, a.len() as int), prev_ip, prev_compact)
                    == vint::vint_bytes(a.len() as nat) + anchors_delta_bytes(a, 0, 0),
            decreases a.len() - i,
        {
            let ghost rest = a.subrange(i as int, a.len() as int);
            let anc = self.anchors[i];
            proof {
                assert(rest[0] == a[i as int]);
                assert(rest.drop_first() =~= a.subrange(i + 1, a.len() as int));
                if i > 0 {
                    assert(a[i - 1].value < a[i as int].value && a[i - 1].compact < a[
                        i as int
                    ].compact);
                }
            }
            let delta_ip = anc.value - prev_ip;
            let delta_compact = anc.compact - prev_compact;
            vint::serialize_vint(delta_ip, output);
            vint::serialize_vint(delta_compact as u128, output);
            proof {
                assert(anchors_delta_bytes(rest, prev_ip, prev_compact) == vint::vint_bytes(
                    delta_ip as nat,
                ) + vint::vint_bytes(delta_compact as nat) + anchors_delta_bytes(
                    rest.drop_first(),
                    anc.value,
                    anc.compact,
                ));
                assert(output@ + anchors_delta_bytes(
                    a.subrange(i + 1, a.len() as int),
                    anc.value,
                    anc.compact,
                ) =~= vint::vint_bytes(a.len() as nat) + anchors_delta_bytes(a, 0, 0));
            }
            prev_ip = anc.value;
            prev_compact = anc.compact;
            i = i + 1;
        }
        proof {
            assert(a.subrange(a.len() as int, a.len() as int) =~= Seq::<Anchor>::empty());
            assert(anchors_delta_bytes(Seq::<Anchor>::empty(), prev_ip, prev_compact)
                == Seq::<u8>::empty());
            assert(output@ =~= vint::vint_bytes(a.len() as nat) + anchors_delta_bytes(a, 0, 0));
        }
        output.push(self.num_bits);
        proof {
            assert(output@ =~= header_bytes(a, self.num_bits));
        }
    }

    /// Writes the whole container for `ip_addrs`: header, count, and the
    /// bitpacked compact codes. Fails only when the value count does not
    /// fit the container's index space.
    pub fn compress(&self, ip_addrs: &[u128]) -> (r: Result<Vec<u8>, EncodeError>)
        requires
            self.wf(),
            ip_addrs@.len() >= 1,
            forall|i: int|
                0 <= i < ip_addrs@.len() ==> covered(self.anchors@, #[trigger] ip_addrs@[i]) && 0
                    <= fwd(self.anchors@, ip_addrs@[i]) <= u64::MAX && fwd(
                    self.anchors@,
                    ip_addrs@[i],
                ) < pow2(self.num_bits as nat),
        ensures
            match r {
                Ok(out) => valid_encoding(self.anchors@, self.num_bits, ip_addrs@) && out@
                    == container_bytes(self.anchors@, self.num_bits, ip_addrs@),
                Err(e) => e == EncodeError::TooManyValues && (ip_addrs@.len() > u32::MAX
                    || ip_addrs@.len() * (self.num_bits as int) > usize::MAX),
            },
    {
        let ghost a = self.anchors@;
        let ghost nb = self.num_bits;
        let n = ip_addrs.len();
        if n > u32::MAX as usize {
            return Err(EncodeError::TooManyValues);
        }
        assert((n as u64) * (self.num_bits as u64) <= u64::MAX) by (nonlinear_arith)
            requires
                n <= u32::MAX,
                self.num_bits <= 64,
        ;
        let bits_total: u64 = (n as u64) * (self.num_bits as u64);
        if bits_total > usize::MAX as u64 {
            return Err(EncodeError::TooManyValues);
        }
        let mut output: Vec<u8> = Vec::new();
        self.write_header(&mut output);
        vint::serialize_vint(n as u128, &mut output);
        let ghost base = output@;
        let ghost codes = codes_transcript(a, nb, ip_addrs@);
        let mut packer = pack::packer_new();
        proof {
            assert(codes.subrange(0, 0) =~= Seq::<(u64, u8)>::empty());
            assert(base + pack::packed_flushed(pack::packer_transcript(packer)) =~= base);
        }
        let mut i: usize = 0;
        while i < n
            invariant
                self.wf(),
                a == self.anchors@,
                nb == self.num_bits,
                ip_addrs@.len() == n,
                forall|k: int|
                    0 <= k < ip_addrs@.len() ==> covered(self.anchors@, #[trigger] ip_addrs@[k])
                        && 0 <= fwd(self.anchors@, ip_addrs@[k]) <= u64::MAX && fwd(
                        self.anchors@,
                        ip_addrs@[k],
                    ) < pow2(self.num_bits as nat),
                i <= n,
                codes == codes_transcript(a, nb, ip_addrs@),
                pack::packer_transcript(packer) == codes.subrange(0, i as int),
                output@ == base + pack::packed_flushed(pack::packer_transcript(packer)),
            decreases n - i,
        {
            let v = ip_addrs[i];
            let code = self.to_compact(v);
            let ghost t0 = pack::packer_transcript(packer);
            let ghost out0 = output@;
            pack::packer_write(&mut packer, code, self.num_bits, &mut output);
            proof {
                assert(codes.subrange(0, i + 1) =~= codes.subrange(0, i as int).push(
                    codes[i as int],
                ));
                assert(codes[i as int] == (code, nb));
                let app = output@.skip(out0.len() as int);
                assert(output@ =~= out0 + app);
                assert(output@ =~= base + pack::packed_flushed(pack::packer_transcript(packer)));
            }
            i = i + 1;
        }
        proof {
            assert(codes.subrange(0, n as int) =~= codes);
        }
        let ghost out1 = output@;
        pack::packer_close(&mut packer, &mut output);
        proof {
            let app = output@.skip(out1.len() as int);
            assert(output@ =~= out1 + app);
            assert(output@ =~= base + pack::packed_bytes(codes));
            assert(output@ =~= container_bytes(a, nb, ip_addrs@));
            assert(pack::uniform_fits(codes, nb));
            pack::lemma_total_bits_uniform(codes, nb);
        }
        Ok(output)
    }
}

/// Each anchor record takes at least two bytes in the header.
proof fn lemma_adb_len(a: Seq<Anchor>, pv: u128, pc: u64)
    ensures
        anchors_delta_bytes(a, pv, pc).len() >= 2 * a.len(),
    decreases a.len(),
{
    if a.len() > 0 {
        lemma_adb_len(a.drop_first(), a[0].value, a[0].compact);
    }
}

/// The mirror of the trained map: anchors keyed by compact base, and the
/// bit unpacker for the packed body.
pub struct Decompressor {
    pub anchors: Vec<Anchor>,
    pub num_bits: u8,
    pub bit_unpacker: tantivy_bitpacker::BitUnpacker,
}

impl Decompressor {
    pub open spec fn wf(self) -> bool {
        &&& anchors_sorted(self.anchors@)
        &&& (1 <= self.num_bits <= 56 || self.num_bits == 64)
        &&& pack::unpacker_bits(self.bit_unpacker) == self.num_bits
    }
}

/// Binary search for the greatest anchor whose compact base is at or
/// below `c`.
fn find_compact_anchor(anchors: &Vec<Anchor>, c: u64) -> (r: Option<usize>)
    requires
        anchors_sorted(anchors@),
    ensures
        match r {
            Some(i) => i < anchors@.len() && cidx_at(anchors@, c as int) == i as int,
            None => cidx_at(anchors@, c as int) == -1,
        },
{
    let mut lo: usize = 0;
    let mut hi: usize = anchors.len();
    while lo < hi
        invariant
            anchors_sorted(anchors@),
            lo <= hi <= anchors@.len(),
            forall|j: int| 0 <= j < lo ==> (#[trigger] anchors@[j]).compact <= c,
            forall|j: int| hi <= j < anchors@.len() ==> (#[trigger] anchors@[j]).compact > c,
        decreases hi - lo,
    {
        let mid = lo + (hi - lo) / 2;
        if anchors[mid].compact <= c {
            lo = mid + 1;
        } else {
            hi = mid;
        }
    }
    if lo == 0 {
        proof {
            lemma_cidx_at_bracket(anchors@, c as int, -1);
        }
        None
    } else {
        proof {
            lemma_cidx_at_bracket(anchors@, c as int, lo - 1);
        }
        Some(lo - 1)
    }
}

impl Decompressor {
    /// Maps a compact code back to its value through the greatest anchor
    /// at or below it; codes below every anchor map to themselves.
    fn compact_to_ip_addr(&self, compact: u64) -> (r: Result<u128, DecodeError>)
        requires
            anchors_sorted(self.anchors@),
        ensures
            match r {
                Ok(v) => v as int == inv(self.anchors@, compact as int),
                Err(e) => e == DecodeError::ValueOverflow && inv(self.anchors@, compact as int)
                    > u128::MAX,
            },
    {
        proof {
            lemma_cidx_at_props(self.anchors@, compact as int);
        }
        match find_compact_anchor(&self.anchors, compact) {
            Some(i) => {
                let a = self.anchors[i];
                let diff = (compact - a.compact) as u128;
                if a.value > u128::MAX - diff {
                    Err(DecodeError::ValueOverflow)
                } else {
                    Ok(a.value + diff)
                }
            },
            None => Ok(compact as u128),
        }
    }

    /// Reads the `idx`-th fixed-width code out of the packed body and
    /// applies the inverse map. On the body that a transcript of this
    /// width packs, the result is the transcript value mapped back.
    pub fn get(&self, idx: usize, data: &[u8]) -> (r: Result<u128, DecodeError>)
        requires
            self.wf(),
            idx <= u32::MAX,
            idx * self.num_bits as int <= usize::MAX as int,
            (idx * self.num_bits as int) / 8 <= data@.len(),
        ensures
            forall|t: Seq<(u64, u8)>|
                #![trigger pack::packed_bytes(t)]
                (pack::packed_bytes(t) == data@ && pack::uniform_fits(t, self.num_bits) && (
                idx as int) < t.len() && 0 <= inv(self.anchors@, t[idx as int].0 as int)
                    <= u128::MAX) ==> (r matches Ok(v) && v as int == inv(
                    self.anchors@,
                    t[idx as int].0 as int,
                )),
    {
        let code = pack::unpacker_get(&self.bit_unpacker, idx as u32, data);
        let out = self.compact_to_ip_addr(code);
        proof {
            assert forall|t: Seq<(u64, u8)>|
                #![trigger pack::packed_bytes(t)]
                (pack::packed_bytes(t) == data@ && pack::uniform_fits(t, self.num_bits) && (
                idx as int) < t.len() && 0 <= inv(self.anchors@, t[idx as int].0 as int)
                    <= u128::MAX) implies (out matches Ok(v) && v as int == inv(
                self.anchors@,
                t[idx as int].0 as int,
            )) by {
                assert(code == t[idx as int].0);
            }
        }
        out
    }

    /// Reads the container header: the anchor count, the anchor deltas,
    /// and the bit width. Returns the decoder and the offset of the value
    /// count. On the container of any encoded sequence this succeeds and
    /// reconstructs exactly the map the encoder used.
    pub fn open(data: &[u8]) -> (r: Result<(Decompressor, usize), DecodeError>)
        ensures
            match r {
                Ok(p) => p.0.wf() && 1 <= p.1 <= data@.len() && data@[p.1 - 1] == p.0.num_bits,
                Err(_) => true,
            },
            forall|a: Seq<Anchor>, nb: u8, vals: Seq<u128>|
                #![trigger container_bytes(a, nb, vals)]
                (valid_encoding(a, nb, vals) && data@ == container_bytes(a, nb, vals)) ==> (
                r matches Ok(p) && p.0.anchors@ == a && p.0.num_bits == nb && data@.subrange(
                    p.1 as int,
                    data@.len() as int,
                ) == vint::vint_bytes(vals.len() as nat) + pack::packed_bytes(
                    codes_transcript(a, nb, vals),
                )),
    {
        let data_len = data.len();
        assert(data@.len() <= usize::MAX);
        let kres = vint::deserialize_vint(data, 0);
        proof {
            assert forall|a: Seq<Anchor>, nb: u8, vals: Seq<u128>|
                #![trigger container_bytes(a, nb, vals)]
                (valid_encoding(a, nb, vals) && data@ == container_bytes(a, nb, vals)) implies (
            kres matches Ok(p) && p.0 as nat == a.len() && data@.subrange(
                p.1 as int,
                data@.len() as int,
            ) == anchors_delta_bytes(a, 0, 0) + (seq![nb] + vint::vint_bytes(vals.len() as nat)
                + pack::packed_bytes(codes_transcript(a, nb, vals)))) by {
                lemma_open_header_start(data@, a, nb, vals);
                let kb = vint::vint_bytes(a.len() as nat);
                assert(vint::vint_at(data@, 0, (a.len() as nat) as u128));
            }
        }
        let (kval, kpos) = match kres {
            Ok(p) => p,
            Err(e) => {
                return Err(e);
            },
        };
        if kval > data.len() as u128 {
            proof {
                assert forall|a: Seq<Anchor>, nb: u8, vals: Seq<u128>|
                    #![trigger container_bytes(a, nb, vals)]
                    !(valid_encoding(a, nb, vals) && data@ == container_bytes(a, nb, vals)) by {
                    if valid_encoding(a, nb, vals) && data@ == container_bytes(a, nb, vals) {
                        lemma_open_header_start(data@, a, nb, vals);
                        lemma_adb_len(a, 0, 0);
                    }
                }
            }
            return Err(DecodeError::CountTooLarge);
        }
        let k_count = kval as usize;
        let mut anchors: Vec<Anchor> = Vec::new();
        proof {
            assert forall|a: Seq<Anchor>, nb: u8, vals: Seq<u128>|
                #![trigger container_bytes(a, nb, vals)]
                (valid_encoding(a, nb, vals) && data@ == container_bytes(a, nb, vals)) implies (
            a.len() == k_count && anchors@ == a.subrange(0, 0) && data@.subrange(
                kpos as int,
                data@.len() as int,
            ) == anchors_delta_bytes(a.subrange(0, a.len() as int), 0u128, 0u64) + (seq![nb]
                + vint::vint_bytes(vals.len() as nat) + pack::packed_bytes(
                codes_transcript(a, nb, vals),
            ))) by {
                lemma_open_header_start(data@, a, nb, vals);
                assert(anchors@ =~= a.subrange(0, 0));
                assert(a.subrange(0, a.len() as int) =~= a);
            }
        }
        let mut prev_v: u128 = 0;
        let mut prev_c: u64 = 0;
        let mut pos: usize = kpos;
        let mut i: usize = 0;
        while i < k_count
            invariant
                data@.len() <= usize::MAX,
                pos <= data@.len(),
                anchors@.len() == i <= k_count,
                k_count <= data@.len(),
                anchors_sorted(anchors@),
                i > 0 ==> prev_v == anchors@[i - 1].value && prev_c == anchors@[i - 1].compact,
                i == 0 ==> prev_v == 0 && prev_c == 0,
                forall|a: Seq<Anchor>, nb: u8, vals: Seq<u128>|
                    #![trigger container_bytes(a, nb, vals)]
                    (valid_encoding(a, nb, vals) && data@ == container_bytes(a, nb, vals)) ==> (
                    a.len() == k_count && i <= a.len() && anchors@ == a.subrange(0, i as int)
                        && data@.subrange(pos as int, data@.len() as int) == anchors_delta_bytes(
                        a.subrange(i as int, a.len() as int),
                        (if i == 0 {
                            0u128
                        } else {
                            a[i - 1].value
                        }),
                        (if i == 0 {
                            0u64
                        } else {
                            a[i - 1].compact
                        }),
                    ) + (seq![nb] + vint::vint_bytes(vals.len() as nat) + pack::packed_bytes(
                        codes_transcript(a, nb, vals),
                    ))),
            decreases k_count - i,
        {
            let dres = vint::deserialize_vint(data, pos);
            proof {
                assert forall|a: Seq<Anchor>, nb: u8, vals: Seq<u128>|
                    #![trigger container_bytes(a, nb, vals)]
                    (valid_encoding(a, nb, vals) && data@ == container_bytes(a, nb, vals)) implies (
                dres matches Ok(p) && p.0 as int == a[i as int].value - (if i == 0 {
                    0int
                } else {
                    a[i - 1].value as int
                })) by {
                    lemma_open_anchor_step(data@, a, nb, vals, i as int, pos as int);
                }
            }
            let (dv, pos1) = match dres {
                Ok(p) => p,
                Err(e) => {
                    return Err(e);
                },
            };
            let dres2 = vint::deserialize_vint(data, pos1);
            proof {
                assert forall|a: Seq<Anchor>, nb: u8, vals: Seq<u128>|
                    #![trigger container_bytes(a, nb, vals)]
                    (valid_encoding(a, nb, vals) && data@ == container_bytes(a, nb, vals)) implies (
                dres2 matches Ok(p) && p.0 as int == a[i as int].compact - (if i == 0 {
                    0int
                } else {
                    a[i - 1].compact as int
                })) by {
                    lemma_open_anchor_step(data@, a, nb, vals, i as int, pos as int);
                    let pv = if i == 0 {
                        0u128
                    } else {
                        a[i - 1].value
                    };
                    let dvb = vint::vint_bytes((a[i as int].value - pv) as nat);
                    assert(pos1 == pos + dvb.len());
                }
            }
            let (dc, pos2) = match dres2 {
                Ok(p) => p,
                Err(e) => {
                    return Err(e);
                },
            };
            proof {
                // Under any container hypothesis the parsed deltas rebuild
                // the encoder's anchor exactly, so the guarded sums below
                // fit and stay strictly increasing.
                assert forall|a: Seq<Anchor>, nb: u8, vals: Seq<u128>|
                    #![trigger container_bytes(a, nb, vals)]
                    (valid_encoding(a, nb, vals) && data@ == container_bytes(a, nb, vals)) implies (
                prev_v + dv == a[i as int].value && prev_c + dc == a[i as int].compact && (i > 0
                    ==> a[i - 1].value < a[i as int].value && a[i - 1].compact < a[
                    i as int
                ].compact)) by {
                    lemma_open_anchor_step(data@, a, nb, vals, i as int, pos as int);
                    if i > 0 {
                        assert(a[i - 1].value < a[i as int].value && a[i - 1].compact < a[
                            i as int
                        ].compact);
                    }
                }
            }
            if prev_v > u128::MAX - dv {
                return Err(DecodeError::ValueOverflow);
            }
            let new_v = prev_v + dv;
            if dc > u64::MAX as u128 || prev_c > u64::MAX - (dc as u64) {
                return Err(DecodeError::ValueOverflow);
            }
            let new_c = prev_c + (dc as u64);
            if i > 0 && (new_v <= prev_v || new_c <= prev_c) {
                return Err(DecodeError::NonMonotoneAnchors);
            }
            let ghost anchors0 = anchors@;
            anchors.push(Anchor { value: new_v, compact: new_c });
            proof {
                assert(anchors@ =~= anchors0.push(Anchor { value: new_v, compact: new_c }));
                assert forall|u: int, w: int| 0 <= u < w < anchors@.len() implies (
                #[trigger] anchors@[u]).value < (#[trigger] anchors@[w]).value && anchors@[u].compact
                    < anchors@[w].compact by {
                    if w < anchors@.len() - 1 {
                    } else {
                        if u < i - 1 {
                            assert(anchors0[u].value < anchors0[i - 1].value);
                            assert(anchors0[u].compact < anchors0[i - 1].compact);
                        }
                    }
                }
            }
            proof {
                assert forall|a: Seq<Anchor>, nb: u8, vals: Seq<u128>|
                    #![trigger container_bytes(a, nb, vals)]
                    (valid_encoding(a, nb, vals) && data@ == container_bytes(a, nb, vals)) implies (
                a.len() == k_count && i + 1 <= a.len() && anchors@ == a.subrange(0, i + 1)
                    && data@.subrange(pos2 as int, data@.len() as int) == anchors_delta_bytes(
                    a.subrange(i + 1, a.len() as int),
                    a[i as int].value,
                    a[i as int].compact,
                ) + (seq![nb] + vint::vint_bytes(vals.len() as nat) + pack::packed_bytes(
                    codes_transcript(a, nb, vals),
                ))) by {
                    lemma_open_anchor_step(data@, a, nb, vals, i as int, pos as int);
                    let pv = if i == 0 {
                        0u128
                    } else {
                        a[i - 1].value
                    };
                    let pc = if i == 0 {
                        0u64
                    } else {
                        a[i - 1].compact
                    };
                    let dvb = vint::vint_bytes((a[i as int].value - pv) as nat);
                    let dcb = vint::vint_bytes((a[i as int].compact - pc) as nat);
                    assert(pos1 == pos + dvb.len());
                    assert(pos2 == pos1 + dcb.len());
                    assert(new_v == a[i as int].value);
                    assert(new_c == a[i as int].compact);
                    assert(anchors@ =~= a.subrange(0, i + 1));
                }
            }
            prev_v = new_v;
            prev_c = new_c;
            pos = pos2;
            i = i + 1;
        }
        if pos >= data.len() {
            proof {
                assert forall|a: Seq<Anchor>, nb: u8, vals: Seq<u128>|
                    #![trigger container_bytes(a, nb, vals)]
                    !(valid_encoding(a, nb, vals) && data@ == container_bytes(a, nb, vals)) by {
                    if valid_encoding(a, nb, vals) && data@ == container_bytes(a, nb, vals) {
                        assert(a.subrange(i as int, a.len() as int) =~= Seq::<Anchor>::empty());
                        assert(data@.subrange(pos as int, data@.len() as int).len() >= 1);
                    }
                }
            }
            return Err(DecodeError::Truncated);
        }
        let nbb = data[pos];
        let hdr_end = pos + 1;
        proof {
            assert forall|a: Seq<Anchor>, nb: u8, vals: Seq<u128>|
                #![trigger container_bytes(a, nb, vals)]
                (valid_encoding(a, nb, vals) && data@ == container_bytes(a, nb, vals)) implies (nbb
                == nb && data@.subrange(hdr_end as int, data@.len() as int) == vint::vint_bytes(
                vals.len() as nat,
            ) + pack::packed_bytes(codes_transcript(a, nb, vals))) by {
                assert(a.subrange(i as int, a.len() as int) =~= Seq::<Anchor>::empty());
                let tail = seq![nb] + vint::vint_bytes(vals.len() as nat) + pack::packed_bytes(
                    codes_transcript(a, nb, vals),
                );
                assert(data@.subrange(pos as int, data@.len() as int) =~= tail);
                assert(data@[pos as int] == tail[0]);
                assert(tail[0] == nb);
                assert(data@.subrange(hdr_end as int, data@.len() as int) =~= vint::vint_bytes(
                    vals.len() as nat,
                ) + pack::packed_bytes(codes_transcript(a, nb, vals))) by {
                    assert(forall|q: int|
                        0 <= q < data@.len() - hdr_end ==> #[trigger] data@[hdr_end + q] == tail[1
                            + q]);
                }
            }
        }
        if !(nbb >= 1 && (nbb <= 56 || nbb == 64)) {
            return Err(DecodeError::InvalidNumBits);
        }
        let unp = pack::unpacker_new(nbb);
        Ok((Decompressor { anchors, num_bits: nbb, bit_unpacker: unp }, hdr_end))
    }
}

/// Under a container hypothesis the stream starts with the anchor count.
proof fn lemma_open_header_start(data: Seq<u8>, a: Seq<Anchor>, nb: u8, vals: Seq<u128>)
    requires
        valid_encoding(a, nb, vals),
        data == container_bytes(a, nb, vals),
        data.len() <= usize::MAX,
    ensures
        a.len() <= data.len(),
        vint::vint_at(data, 0, (a.len() as nat) as u128),
        vint::vint_bytes(a.len() as nat).len() <= data.len(),
        data.subrange(
            vint::vint_bytes(a.len() as nat).len() as int,
            data.len() as int,
        ) == anchors_delta_bytes(a, 0, 0) + (seq![nb] + vint::vint_bytes(vals.len() as nat)
            + pack::packed_bytes(codes_transcript(a, nb, vals))),
{
    let kb = vint::vint_bytes(a.len() as nat);
    let rest = anchors_delta_bytes(a, 0, 0) + (seq![nb] + vint::vint_bytes(vals.len() as nat)
        + pack::packed_bytes(codes_transcript(a, nb, vals)));
    assert(data.subrange(0, data.len() as int) =~= data);
    assert(data =~= kb + rest);
    lemma_prefix_of_suffix(data, 0, kb, rest);
    lemma_adb_len(a, 0, 0);
    assert(a.len() <= u128::MAX) by {
        assert(rest.len() >= 2 * a.len());
    }
}

/// Under a container hypothesis, mid-way through the anchor table the
/// stream continues with the current anchor's two deltas.
proof fn lemma_open_anchor_step(
    data: Seq<u8>,
    a: Seq<Anchor>,
    nb: u8,
    vals: Seq<u128>,
    i: int,
    pos: int,
)
    requires
        valid_encoding(a, nb, vals),
        data == container_bytes(a, nb, vals),
        0 <= i < a.len(),
        0 <= pos <= data.len(),
        data.subrange(pos, data.len() as int) == anchors_delta_bytes(
            a.subrange(i, a.len() as int),
            (if i == 0 {
                0u128
            } else {
                a[i - 1].value
            }),
            (if i == 0 {
                0u64
            } else {
                a[i - 1].compact
            }),
        ) + (seq![nb] + vint::vint_bytes(vals.len() as nat) + pack::packed_bytes(
            codes_transcript(a, nb, vals),
        )),
    ensures
        ({
            let pv = if i == 0 {
                0u128
            } else {
                a[i - 1].value
            };
            let pc = if i == 0 {
                0u64
            } else {
                a[i - 1].compact
            };
            let dvb = vint::vint_bytes((a[i].value - pv) as nat);
            let dcb = vint::vint_bytes((a[i].compact - pc) as nat);
            &&& vint::vint_at(data, pos, ((a[i].value - pv) as nat) as u128)
            &&& pos + dvb.len() <= data.len()
            &&& vint::vint_at(data, pos + dvb.len(), ((a[i].compact - pc) as nat) as u128)
            &&& pos + dvb.len() + dcb.len() <= data.len()
            &&& data.subrange(pos + dvb.len() + dcb.len(), data.len() as int)
                == anchors_delta_bytes(a.subrange(i + 1, a.len() as int), a[i].value, a[i].compact)
                + (seq![nb] + vint::vint_bytes(vals.len() as nat) + pack::packed_bytes(
                codes_transcript(a, nb, vals),
            ))
            &&& 0 <= a[i].value - pv <= u128::MAX
            &&& 0 <= a[i].compact - pc <= u64::MAX
        }),
{
    let pv = if i == 0 {
        0u128
    } else {
        a[i - 1].value
    };
    let pc = if i == 0 {
        0u64
    } else {
        a[i - 1].compact
    };
    if i > 0 {
        assert(a[i - 1].value < a[i].value && a[i - 1].compact < a[i].compact);
    }
    let suff = a.subrange(i, a.len() as int);
    assert(suff[0] == a[i]);
    assert(suff.drop_first() =~= a.subrange(i + 1, a.len() as int));
    let dvb = vint::vint_bytes((a[i].value - pv) as nat);
    let dcb = vint::vint_bytes((a[i].compact - pc) as nat);
    let tail = seq![nb] + vint::vint_bytes(vals.len() as nat) + pack::packed_bytes(
        codes_transcript(a, nb, vals),
    );
    assert(anchors_delta_bytes(suff, pv, pc) == dvb + dcb + anchors_delta_bytes(
        a.subrange(i + 1, a.len() as int),
        a[i].value,
        a[i].compact,
    ));
    assert(data.subrange(pos, data.len() as int) =~= dvb + (dcb + (anchors_delta_bytes(
        a.subrange(i + 1, a.len() as int),
        a[i].value,
        a[i].compact,
    ) + tail)));
    lemma_prefix_of_suffix(data, pos, dvb, dcb + (anchors_delta_bytes(
        a.subrange(i + 1, a.len() as int),
        a[i].value,
        a[i].compact,
    ) + tail));
    lemma_prefix_of_suffix(data, pos + dvb.len(), dcb, anchors_delta_bytes(
        a.subrange(i + 1, a.len() as int),
        a[i].value,
        a[i].compact,
    ) + tail);
    assert(a[i].value - pv <= u128::MAX);
    assert(a[i].compact - pc <= u128::MAX);
}

/// Interval encoding with a header-cost budget in bits: the trainer
/// accepts a gap only while the estimated body saving exceeds the budget.
#[derive(Debug, Default)]
pub struct IntervalEncoding(pub usize);

impl IntervalEncoding {
    /// Sorts a private copy of the input and trains the anchor map on it.
    pub fn train(&self, ip_addrs: &[u128]) -> (r: Result<Compressor, EncodeError>)
        requires
            ip_addrs@.len() >= 1,
        ensures
            match r {
                Ok(c) => {
                    &&& c.wf()
                    &&& forall|i: int|
                        0 <= i < ip_addrs@.len() ==> covered(c.anchors@, #[trigger] ip_addrs@[i])
                            && 0 <= fwd(c.anchors@, ip_addrs@[i]) <= u64::MAX && fwd(
                            c.anchors@,
                            ip_addrs@[i],
                        ) < pow2(c.num_bits as nat) && fwd(c.anchors@, ip_addrs@[i])
                            <= ip_addrs@[i]
                    &&& forall|u: int|
                        0 <= u < c.anchors@.len() ==> ip_addrs@.contains(
                            (#[trigger] c.anchors@[u]).value,
                        ) && c.anchors@[u].compact <= c.anchors@[u].value
                    &&& exists|k: int|
                        0 <= k < ip_addrs@.len() && c.num_bits as nat == pick_width(
                            fwd(c.anchors@, #[trigger] ip_addrs@[k]) as nat,
                        ) && (forall|j: int|
                            0 <= j < ip_addrs@.len() ==> fwd(c.anchors@, #[trigger] ip_addrs@[j])
                                <= fwd(c.anchors@, ip_addrs@[k]))
                    &&& (self.0 as int) >= 128 * ip_addrs@.len() ==> c.anchors@.len() == 0
                    &&& c.anchors@ == trained_anchors(sort::sorted_of(ip_addrs@), self.0 as int)
                    &&& c.num_bits as nat == trained_width(sort::sorted_of(ip_addrs@), self.0 as int)
                },
                Err(e) => e == EncodeError::AmplitudeTooLarge && (exists|i: int|
                    0 <= i < ip_addrs@.len() && #[trigger] ip_addrs@[i] > u64::MAX),
            },
    {
        broadcast use vstd::seq_lib::group_to_multiset_ensures;

        let v = vstd::slice::slice_to_vec(ip_addrs);
        let sorted_v = sort::merge_sort(v);
        let ghost s = sorted_v@;
        proof {
            assert forall|x: u128| #[trigger] s.contains(x) implies ip_addrs@.contains(x) by {
                assert(s.to_multiset().count(x) > 0);
                assert(ip_addrs@.to_multiset().count(x) == s.to_multiset().count(x));
            }
            assert forall|x: u128| #[trigger] ip_addrs@.contains(x) implies s.contains(x) by {
                assert(ip_addrs@.to_multiset().count(x) > 0);
                assert(ip_addrs@.to_multiset().count(x) == s.to_multiset().count(x));
            }
        }
        let r = train(&sorted_v, self.0);
        proof {
            if r is Ok {
                let c = r->Ok_0;
                assert forall|i: int| 0 <= i < ip_addrs@.len() implies covered(
                    c.anchors@,
                    #[trigger] ip_addrs@[i],
                ) && 0 <= fwd(c.anchors@, ip_addrs@[i]) <= u64::MAX && fwd(
                    c.anchors@,
                    ip_addrs@[i],
                ) < pow2(c.num_bits as nat) && fwd(c.anchors@, ip_addrs@[i]) <= ip_addrs@[i] by {
                    let x = ip_addrs@[i];
                    assert(ip_addrs@.contains(x));
                    assert(s.contains(x));
                    let k = choose|k: int| 0 <= k < s.len() && s[k] == x;
                    assert(covered(c.anchors@, s[k]));
                }
                assert forall|u: int| 0 <= u < c.anchors@.len() implies ip_addrs@.contains(
                    (#[trigger] c.anchors@[u]).value,
                ) && c.anchors@[u].compact <= c.anchors@[u].value by {
                    assert(s.contains(c.anchors@[u].value));
                }
                // The trained width is tied to the largest input value's code.
                let lastv = s[s.len() - 1];
                assert(s.contains(lastv));
                assert(ip_addrs@.contains(lastv));
                let k0 = choose|k0: int| 0 <= k0 < ip_addrs@.len() && ip_addrs@[k0] == lastv;
                assert forall|j: int| 0 <= j < ip_addrs@.len() implies fwd(
                    c.anchors@,
                    #[trigger] ip_addrs@[j],
                ) <= fwd(c.anchors@, ip_addrs@[k0]) by {
                    let x = ip_addrs@[j];
                    assert(ip_addrs@.contains(x));
                    assert(s.contains(x));
                    let kj = choose|kj: int| 0 <= kj < s.len() && s[kj] == x;
                    assert(covered(c.anchors@, s[kj]));
                    assert(x <= lastv);
                    if x < lastv {
                        lemma_fwd_monotone(c.anchors@, x, lastv);
                    }
                }
                assert(0 <= k0 < ip_addrs@.len() && c.num_bits as nat == pick_width(
                    fwd(c.anchors@, ip_addrs@[k0]) as nat,
                ) && (forall|j: int|
                    0 <= j < ip_addrs@.len() ==> fwd(c.anchors@, #[trigger] ip_addrs@[j]) <= fwd(
                        c.anchors@,
                        ip_addrs@[k0],
                    )));
            } else {
                let x = s[s.len() - 1];
                assert(s.contains(x));
                assert(ip_addrs@.contains(x));
                let i = choose|i: int| 0 <= i < ip_addrs@.len() && ip_addrs@[i] == x;
                assert(0 <= i < ip_addrs@.len() && ip_addrs@[i] > u64::MAX);
            }
        }
        r
    }

    /// Encodes the sequence as a self-describing container: the empty
    /// sequence encodes to no bytes at all. Fails only when a value does
    /// not fit the compact space or the count overruns the index space.
    pub fn encode(&self, ip_addrs: &[u128]) -> (r: Result<Vec<u8>, EncodeError>)
        ensures
            r matches Ok(out) ==> is_container_for(out@, ip_addrs@),
            r matches Err(e) ==> (e == EncodeError::AmplitudeTooLarge || e
                == EncodeError::TooManyValues),
            (ip_addrs@.len() <= u32::MAX && ip_addrs@.len() * 64 <= usize::MAX && (forall|i: int|
                0 <= i < ip_addrs@.len() ==> #[trigger] ip_addrs@[i] <= u64::MAX)) ==> r is Ok,
            ip_addrs@.len() > 0 ==> (r matches Ok(out) ==> out@ == container_bytes(
                trained_anchors(sort::sorted_of(ip_addrs@), self.0 as int),
                trained_width(sort::sorted_of(ip_addrs@), self.0 as int) as u8,
                ip_addrs@,
            )),
            ip_addrs@.len() == 0 ==> (r matches Ok(out) ==> out@ == Seq::<u8>::empty()),
    {
        if ip_addrs.len() == 0 {
            let out: Vec<u8> = Vec::new();
            return Ok(out);
        }
        let c = match self.train(ip_addrs) {
            Ok(c) => c,
            Err(e) => {
                return Err(e);
            },
        };
        match c.compress(ip_addrs) {
            Ok(out) => {
                proof {
                    assert(is_container_for(out@, ip_addrs@)) by {
                        assert(valid_encoding(c.anchors@, c.num_bits, ip_addrs@) && out@
                            == container_bytes(c.anchors@, c.num_bits, ip_addrs@));
                    }
                }
                Ok(out)
            },
            Err(e) => {
                proof {
                    assert(ip_addrs@.len() * (c.num_bits as int) <= ip_addrs@.len() * 64)
                        by (nonlinear_arith)
                        requires
                            c.num_bits <= 64,
                            ip_addrs@.len() >= 0,
                    ;
                }
                Err(e)
            },
        }
    }

    /// Decodes a container back to the exact sequence it encodes: for
    /// every sequence `vals`, if `data` is the container for `vals`, the
    /// result is `Ok` and holds exactly `vals`.
    #[verifier::loop_isolation(false)]
    #[verifier::rlimit(60)]
    pub fn decode(&self, data: &[u8]) -> (r: Result<Vec<u128>, DecodeError>)
        ensures
            forall|vals: Seq<u128>|
                #[trigger] is_container_for(data@, vals) ==> (r matches Ok(out) && out@ == vals),
    {
        let data_len = data.len();
        if data_len == 0 {
            let out: Vec<u128> = Vec::new();
            proof {
                assert forall|vals: Seq<u128>| #[trigger]
                    is_container_for(data@, vals) implies out@ == vals by {
                    assert(vals.len() == 0);
                    assert(out@ =~= vals);
                }
            }
            return Ok(out);
        }
        let opened = Decompressor::open(data);
        proof {
            assert forall|vals: Seq<u128>| #[trigger]
                is_container_for(data@, vals) implies (opened matches Ok(p) && vals.len() >= 1)
                by {
                if vals.len() == 0 {
                    assert(data@.len() == 0);
                } else {
                    let (a, nbw) = choose|a: Seq<Anchor>, nbw: u8|
                        valid_encoding(a, nbw, vals) && data@ == container_bytes(a, nbw, vals);
                    assert(container_bytes(a, nbw, vals) == data@);
                }
            }
        }
        let (decomp, hdr_end) = match opened {
            Ok(p) => p,
            Err(e) => {
                return Err(e);
            },
        };
        let nres = vint::deserialize_vint(data, hdr_end);
        proof {
            assert forall|vals: Seq<u128>| #[trigger]
                is_container_for(data@, vals) implies (nres matches Ok(p) && p.0 as nat
                == vals.len() && data@.subrange(p.1 as int, data@.len() as int) == body_of(
                data@,
                decomp,
                vals,
            )) by {
                lemma_decode_count(data@, decomp, hdr_end as int, vals);
            }
        }
        let (nval, body_start) = match nres {
            Ok(p) => p,
            Err(e) => {
                return Err(e);
            },
        };
        if nval > u32::MAX as u128 {
            return Err(DecodeError::CountTooLarge);
        }
        let n = nval as usize;
        let body = vstd::slice::slice_subrange(data, body_start, data_len);
        let nb = decomp.num_bits;
        assert((n as u64) * (nb as u64) <= u64::MAX) by (nonlinear_arith)
            requires
                n <= u32::MAX,
                nb <= 64,
        ;
        let bits_total: u64 = (n as u64) * (nb as u64);
        if bits_total > usize::MAX as u64 {
            proof {
                assert forall|vals: Seq<u128>| #[trigger]
                    is_container_for(data@, vals) implies false by {
                    let (a, nbw) = choose|a: Seq<Anchor>, nbw: u8|
                        valid_encoding(a, nbw, vals) && data@ == container_bytes(a, nbw, vals);
                    assert(vals.len() * (nbw as int) <= usize::MAX as int);
                }
            }
            return Err(DecodeError::CountTooLarge);
        }
        let need: u64 = bits_total / 8 + (if bits_total % 8 != 0 {
            1u64
        } else {
            0u64
        });
        assert(need == ((bits_total as int) + 7) / 8);
        if (body.len() as u64) < need {
            proof {
                assert forall|vals: Seq<u128>| #[trigger]
                    is_container_for(data@, vals) implies false by {
                    let (a, nbw) = choose|a: Seq<Anchor>, nbw: u8|
                        valid_encoding(a, nbw, vals) && data@ == container_bytes(a, nbw, vals);
                    assert(pack::packed_bytes(codes_transcript(a, nbw, vals)).len() == (vals.len()
                        * (nbw as int) + 7) / 8);
                }
            }
            return Err(DecodeError::BodyTooShort);
        }
        let mut out: Vec<u128> = Vec::new();
        let mut idx: usize = 0;
        while idx < n
            invariant
                out@.len() == idx <= n,
                forall|vals: Seq<u128>|
                    #[trigger] is_container_for(data@, vals) ==> out@ == vals.subrange(
                        0,
                        idx as int,
                    ),
            decreases n - idx,
        {
            assert((idx as int) * (nb as int) <= (n as int) * (nb as int)) by (nonlinear_arith)
                requires
                    idx <= n,
                    nb >= 0,
            ;
            let got = decomp.get(idx, body);
            proof {
                assert forall|vals: Seq<u128>| #[trigger]
                    is_container_for(data@, vals) implies (got matches Ok(v) && v
                    == vals[idx as int]) by {
                    let (a, nbw) = choose|a: Seq<Anchor>, nbw: u8|
                        valid_encoding(a, nbw, vals) && data@ == container_bytes(a, nbw, vals);
                    let t = codes_transcript(a, nbw, vals);
                    assert(body@ == pack::packed_bytes(t));
                    assert(pack::uniform_fits(t, nb)) by {
                        assert(forall|q: int|
                            0 <= q < t.len() ==> (#[trigger] t[q]).1 == nb && pack::fits_width(
                                t[q].0,
                                nb,
                            ));
                    }
                    lemma_fwd_inv(a, vals[idx as int]);
                    assert(t[idx as int].0 as int == fwd(a, vals[idx as int]));
                    assert(inv(a, t[idx as int].0 as int) == vals[idx as int]);
                }
            }
            let val = match got {
                Ok(v) => v,
                Err(e) => {
                    return Err(e);
                },
            };
            out.push(val);
            proof {
                assert forall|vals: Seq<u128>| #[trigger]
                    is_container_for(data@, vals) implies out@ == vals.subrange(0, idx + 1) by {
                    assert(out@ =~= vals.subrange(0, idx as int).push(vals[idx as int]));
                    assert(vals.subrange(0, idx + 1) =~= vals.subrange(0, idx as int).push(
                        vals[idx as int],
                    ));
                }
            }
            idx = idx + 1;
        }
        proof {
            assert forall|vals: Seq<u128>| #[trigger]
                is_container_for(data@, vals) implies out@ == vals by {
                assert(out@ == vals.subrange(0, n as int));
                assert(vals.subrange(0, vals.len() as int) =~= vals);
            }
        }
        Ok(out)
    }
}

/// The packed body that a container hypothesis places after the count.
pub open spec fn body_of(data: Seq<u8>, decomp: Decompressor, vals: Seq<u128>) -> Seq<u8> {
    pack::packed_bytes(codes_transcript(decomp.anchors@, decomp.num_bits, vals))
}

/// Under a container hypothesis, after the header comes the value count
/// and then the packed body of the codes.
proof fn lemma_decode_count(data: Seq<u8>, decomp: Decompressor, hdr_end: int, vals: Seq<u128>)
    requires
        is_container_for(data, vals),
        vals.len() >= 1,
        0 <= hdr_end <= data.len(),
        forall|a: Seq<Anchor>, nb: u8, v2: Seq<u128>|
            #![trigger container_bytes(a, nb, v2)]
            (valid_encoding(a, nb, v2) && data == container_bytes(a, nb, v2)) ==> (decomp.anchors@
                == a && decomp.num_bits == nb && data.subrange(hdr_end, data.len() as int)
                == vint::vint_bytes(v2.len() as nat) + pack::packed_bytes(
                codes_transcript(a, nb, v2),
            )),
    ensures
        vint::vint_at(data, hdr_end, vals.len() as u128),
        vals.len() <= u32::MAX,
        data.subrange(
            hdr_end + vint::vint_bytes(vals.len() as nat).len(),
            data.len() as int,
        ) == body_of(data, decomp, vals),
{
    let (a, nb) = choose|a: Seq<Anchor>, nb: u8|
        valid_encoding(a, nb, vals) && data == container_bytes(a, nb, vals);
    assert(container_bytes(a, nb, vals) == data);
    let cb = vint::vint_bytes(vals.len() as nat);
    let pb = pack::packed_bytes(codes_transcript(a, nb, vals));
    lemma_prefix_of_suffix(data, hdr_end, cb, pb);
}

impl IpRepr for IntervalEncoding {
    fn encode(&self, ip_addrs: &[u128]) -> Result<Vec<u8>, EncodeError> {
        IntervalEncoding::encode(self, ip_addrs)
    }

    fn decode(&self, data: &[u8]) -> Result<Vec<u128>, DecodeError> {
        IntervalEncoding::decode(self, data)
    }
}

} // verus!
