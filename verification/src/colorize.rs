//! Turning counters into pixel color.
//!
//! Two strategies, one per rendering mode, never conflated:
//!
//! * escape-time tint: per-channel linear ramps of the step index, with the
//!   byte wraparound of the ramps kept exactly as computed;
//! * density grayscale: visit counters are normalized against the buffer
//!   maximum into `[0, FIX_ONE]` and mapped through a base-2 logarithmic
//!   scale, losing 32 of 255 intensity steps per halving under the maximum.
//!   A zero counter has no logarithm; it is clamped to intensity 0, and a
//!   buffer whose maximum is 0 normalizes to all zeros.

use vstd::prelude::*;
use vstd::arithmetic::div_mod::{lemma_div_is_ordered, lemma_div_pos_is_pos, lemma_div_multiples_vanish};
use vstd::arithmetic::power2::pow2;
use crate::fixed::FIX_ONE;

verus! {

/// Red ramp of the escape tint at step `idx`.
pub open spec fn esc_r(idx: u32) -> u8 {
    ((idx * 10) % 256) as u8
}

/// Green ramp of the escape tint at step `idx`.
pub open spec fn esc_g(idx: u32) -> u8 {
    ((idx * 15) % 256) as u8
}

/// Blue ramp of the escape tint at step `idx`: descending from full.
pub open spec fn esc_b(idx: u32) -> u8 {
    (255 - (idx * 10) % 256) as u8
}

/// The escape-time tint of step `idx`, exactly the three ramps.
pub fn escape_color(idx: u32) -> (r: (u8, u8, u8))
    ensures
        r.0 == esc_r(idx),
        r.1 == esc_g(idx),
        r.2 == esc_b(idx),
{
    let wr: u64 = ((idx as u64) * 10) % 256;
    let wg: u64 = ((idx as u64) * 15) % 256;
    ((wr as u8), (wg as u8), (255 - wr) as u8)
}

/// The floored base-2 logarithm.
pub open spec fn log2_floor(n: int) -> int
    recommends
        n >= 1,
    decreases n,
{
    if n < 2 {
        0
    } else {
        1 + log2_floor(n / 2)
    }
}

/// `log2_floor` names the exponent of the largest power of two at or under
/// its argument.
pub proof fn lemma_log2_floor(n: int)
    requires
        n >= 1,
    ensures
        0 <= log2_floor(n) <= n,
        pow2(log2_floor(n) as nat) <= n < pow2((log2_floor(n) + 1) as nat),
    decreases n,
{
    if n < 2 {
        vstd::arithmetic::power2::lemma2_to64();
    } else {
        lemma_log2_floor(n / 2);
        let e = log2_floor(n / 2);
        vstd::arithmetic::power2::lemma_pow2_unfold((e + 1) as nat);
        vstd::arithmetic::power2::lemma_pow2_unfold((e + 2) as nat);
        lemma_div_pos_is_pos(n, 2);
        assert(n == 2 * (n / 2) + n % 2);
    }
}

/// The display intensity of a normalized counter `n` in `[0, FIX_ONE]`:
/// zero counters clamp to 0; otherwise the intensity falls by 32 for every
/// halving under the maximum, reaching 0 at eight halvings.
pub open spec fn intensity_spec(n: int) -> int {
    if n <= 0 {
        0
    } else if log2_floor(n) >= 24 {
        255
    } else if 24 - log2_floor(n) >= 8 {
        0
    } else {
        255 - 32 * (24 - log2_floor(n))
    }
}

/// A 64-bit value has at most 63 halvings in its logarithm.
proof fn lemma_log2_floor_64(n: int)
    requires
        1 <= n <= u64::MAX,
    ensures
        0 <= log2_floor(n) <= 63,
{
    lemma_log2_floor(n);
    if log2_floor(n) > 63 {
        vstd::arithmetic::power2::lemma2_to64_rest();
        if log2_floor(n) > 64 {
            vstd::arithmetic::power2::lemma_pow2_strictly_increases(64, log2_floor(n) as nat);
        }
        assert(false);
    }
}

/// The floored base-2 logarithm, exactly `log2_floor`.
pub fn log2_floor_u64(n: u64) -> (r: u32)
    requires
        n >= 1,
    ensures
        r == log2_floor(n as int),
{
    let mut v: u64 = n;
    let mut k: u32 = 0;
    proof {
        lemma_log2_floor_64(n as int);
    }
    while v >= 2
        invariant
            n >= 1,
            1 <= v,
            k <= 63,
            0 <= log2_floor(n as int) <= 63,
            log2_floor(n as int) == k + log2_floor(v as int),
        decreases v,
    {
        proof {
            lemma_unfold_log2(v as int, k as int, n as int);
            lemma_log2_floor((v as int) / 2);
        }
        v = v / 2;
        k = k + 1;
    }
    k
}

/// Splitting one halving off the logarithm.
proof fn lemma_unfold_log2(v: int, k: int, n: int)
    requires
        v >= 2,
        0 <= k < 64,
        log2_floor(n) == k + log2_floor(v),
        n >= 1,
    ensures
        log2_floor(n) == (k + 1) + log2_floor(v / 2),
{
}

/// The display intensity, exactly `intensity_spec`.
pub fn intensity(n: u64) -> (r: u8)
    ensures
        r == intensity_spec(n as int),
{
    if n == 0 {
        return 0;
    }
    let lg: u32 = log2_floor_u64(n);
    proof {
        lemma_log2_floor(n as int);
    }
    if lg >= 24 {
        255
    } else {
        let d: u32 = 24 - lg;
        if d >= 8 {
            0
        } else {
            (255 - 32 * d) as u8
        }
    }
}

/// The largest entry of a buffer, or 0 when it is empty.
pub open spec fn seq_max(s: Seq<int>) -> int
    decreases s.len(),
{
    if s.len() == 0 {
        0
    } else if s.last() >= seq_max(s.drop_last()) {
        s.last()
    } else {
        seq_max(s.drop_last())
    }
}

/// `seq_max` bounds every entry and is attained in a non-empty buffer of
/// non-negative entries.
pub proof fn lemma_seq_max(s: Seq<int>)
    requires
        forall|i: int| 0 <= i < s.len() ==> #[trigger] s[i] >= 0,
    ensures
        seq_max(s) >= 0,
        forall|i: int| 0 <= i < s.len() ==> #[trigger] s[i] <= seq_max(s),
        s.len() > 0 ==> exists|i: int| 0 <= i < s.len() && s[i] == seq_max(s),
    decreases s.len(),
{
    if s.len() > 0 {
        assert(forall|i: int| 0 <= i < s.drop_last().len() ==> #[trigger] s.drop_last()[i] == s[i]);
        lemma_seq_max(s.drop_last());
        assert forall|i: int| 0 <= i < s.len() implies #[trigger] s[i] <= seq_max(s) by {
            if i < s.len() - 1 {
                assert(s[i] == s.drop_last()[i]);
                assert(s[i] <= seq_max(s.drop_last()));
            }
        }
        if s.last() >= seq_max(s.drop_last()) {
            assert(s[s.len() - 1] == seq_max(s));
        } else {
            let j = choose|j: int| 0 <= j < s.len() - 1 && s.drop_last()[j] == seq_max(s.drop_last());
            assert(s[j] == seq_max(s));
        }
    }
}

/// Every counter scaled into `[0, FIX_ONE]` against the buffer maximum; a
/// buffer whose maximum is 0 normalizes to all zeros.
pub open spec fn normalize_spec(s: Seq<int>) -> Seq<int> {
    Seq::new(
        s.len(),
        |i: int|
            if seq_max(s) <= 0 {
                0
            } else {
                s[i] * FIX_ONE / seq_max(s)
            },
    )
}

/// Normalizing a buffer already at full scale is a no-op.
pub proof fn lemma_normalize_identity(s: Seq<int>)
    requires
        forall|i: int| 0 <= i < s.len() ==> #[trigger] s[i] >= 0,
        seq_max(s) == FIX_ONE,
    ensures
        normalize_spec(s) == s,
{
    assert forall|i: int| 0 <= i < s.len() implies normalize_spec(s)[i] == s[i] by {
        lemma_div_multiples_vanish(s[i], FIX_ONE as int);
        assert(s[i] * FIX_ONE == (FIX_ONE as int) * s[i]) by (nonlinear_arith);
    }
    assert(normalize_spec(s) =~= s);
}

/// Normalization is idempotent on any buffer with a positive maximum.
pub proof fn lemma_normalize_idempotent(s: Seq<int>)
    requires
        forall|i: int| 0 <= i < s.len() ==> #[trigger] s[i] >= 0,
        seq_max(s) > 0,
    ensures
        normalize_spec(normalize_spec(s)) == normalize_spec(s),
{
    let m = seq_max(s);
    let ns = normalize_spec(s);
    lemma_seq_max(s);
    assert forall|i: int| 0 <= i < ns.len() implies (#[trigger] ns[i] >= 0 && ns[i]
        <= FIX_ONE) by {
        assert(s[i] * FIX_ONE >= 0 && s[i] * FIX_ONE <= m * FIX_ONE) by (nonlinear_arith)
            requires
                0 <= s[i] <= m,
        ;
        lemma_div_pos_is_pos(s[i] * FIX_ONE, m);
        lemma_div_is_ordered(s[i] * FIX_ONE, m * FIX_ONE, m);
        lemma_div_multiples_vanish(FIX_ONE as int, m);
        assert(m * FIX_ONE == m * (FIX_ONE as int));
    }
    lemma_seq_max(ns);
    let w = choose|w: int| 0 <= w < s.len() && s[w] == m;
    assert(ns[w] == m * FIX_ONE / m);
    lemma_div_multiples_vanish(FIX_ONE as int, m);
    assert(ns[w] == FIX_ONE);
    assert(seq_max(ns) == FIX_ONE);
    lemma_normalize_identity(ns);
}

/// The buffer maximum, exactly `seq_max` of the counters.
pub fn max_of(counts: &Vec<u64>) -> (r: u64)
    ensures
        r as int == seq_max(counts@.map_values(|c: u64| c as int)),
{
    let s = Ghost(counts@.map_values(|c: u64| c as int));
    let n: usize = counts.len();
    let mut best: u64 = 0;
    let mut k: usize = 0;
    while k < n
        invariant
            k <= n,
            n == counts@.len(),
            s@ == counts@.map_values(|c: u64| c as int),
            best as int == seq_max(s@.take(k as int)),
        decreases n - k,
    {
        proof {
            assert(s@.take(k + 1).drop_last() =~= s@.take(k as int));
            assert(s@.take(k + 1).last() == counts@[k as int] as int);
        }
        let c: u64 = counts[k];
        if c > best {
            best = c;
        }
        k = k + 1;
    }
    proof {
        assert(s@.take(n as int) =~= s@);
    }
    best
}

/// Normalize every counter against the buffer maximum: exactly
/// `normalize_spec` of the counters.
pub fn normalize(counts: &Vec<u64>) -> (r: Vec<u64>)
    ensures
        r@.map_values(|c: u64| c as int) == normalize_spec(counts@.map_values(|c: u64| c as int)),
        r@.len() == counts@.len(),
{
    let s = Ghost(counts@.map_values(|c: u64| c as int));
    proof {
        assert(forall|i: int| 0 <= i < s@.len() ==> #[trigger] s@[i] >= 0);
        lemma_seq_max(s@);
    }
    let m: u64 = max_of(counts);
    let n: usize = counts.len();
    let mut out: Vec<u64> = Vec::new();
    let mut k: usize = 0;
    while k < n
        invariant
            k <= n,
            n == counts@.len(),
            s@ == counts@.map_values(|c: u64| c as int),
            m as int == seq_max(s@),
            forall|i: int| 0 <= i < s@.len() ==> #[trigger] s@[i] <= m as int,
            out@.len() == k,
            forall|i: int| 0 <= i < k ==> #[trigger] out@[i] as int == normalize_spec(s@)[i],
        decreases n - k,
    {
        let c: u64 = counts[k];
        proof {
            assert(s@[k as int] == c as int);
            assert(s@[k as int] <= m as int);
        }
        if m == 0 {
            out.push(0);
        } else {
            proof {
                assert((c as int) * (FIX_ONE as int) <= (m as int) * (FIX_ONE as int)
                    && 0 <= (c as int) * (FIX_ONE as int)) by (nonlinear_arith)
                    requires
                        0 <= c <= m,
                ;
                lemma_div_is_ordered(
                    (c as int) * (FIX_ONE as int),
                    (m as int) * (FIX_ONE as int),
                    m as int,
                );
                lemma_div_pos_is_pos((c as int) * (FIX_ONE as int), m as int);
                lemma_div_multiples_vanish(FIX_ONE as int, m as int);
                assert((m as int) * (FIX_ONE as int) == (m as int) * (FIX_ONE as int));
            }
            let wide: u128 = (c as u128) * (FIX_ONE as u128);
            let q: u128 = wide / (m as u128);
            out.push(q as u64);
        }
        k = k + 1;
    }
    proof {
        assert(out@.map_values(|c: u64| c as int) =~= normalize_spec(s@));
    }
    out
}

/// The grayscale density shading of a counter buffer: normalize against the
/// maximum, take the logarithmic intensity, and write it to all three
/// channels of each pixel.
pub fn shade_density(counts: &Vec<u64>) -> (r: Vec<u8>)
    ensures
        r@.len() == 3 * counts@.len(),
        forall|k: int|
            0 <= k < counts@.len() ==> {
                let v = intensity_spec(
                    normalize_spec(counts@.map_values(|c: u64| c as int))[k],
                );
                &&& #[trigger] r@[3 * k] == v
                &&& r@[3 * k + 1] == v
                &&& r@[3 * k + 2] == v
            },
{
    let normd: Vec<u64> = normalize(counts);
    let n: usize = normd.len();
    let mut out: Vec<u8> = Vec::new();
    let mut k: usize = 0;
    while k < n
        invariant
            k <= n,
            n == normd@.len(),
            n == counts@.len(),
            normd@.map_values(|c: u64| c as int) == normalize_spec(
                counts@.map_values(|c: u64| c as int),
            ),
            out@.len() == 3 * k,
            forall|j: int|
                0 <= j < k ==> {
                    let v = intensity_spec(
                        normalize_spec(counts@.map_values(|c: u64| c as int))[j],
                    );
                    &&& #[trigger] out@[3 * j] == v
                    &&& out@[3 * j + 1] == v
                    &&& out@[3 * j + 2] == v
                },
        decreases n - k,
    {
        let v: u8 = intensity(normd[k]);
        proof {
            assert(normd@.map_values(|c: u64| c as int)[k as int] == normd@[k as int] as int);
        }
        let ghost prev = out@;
        out.push(v);
        out.push(v);
        out.push(v);
        proof {
            assert(out@ =~= prev + seq![v, v, v]);
            assert(v == intensity_spec(
                normalize_spec(counts@.map_values(|c: u64| c as int))[k as int],
            ));
            assert(forall|j: int| 0 <= j < prev.len() ==> #[trigger] out@[j] == prev[j]);
            assert(out@[3 * (k as int)] == v && out@[3 * (k as int) + 1] == v && out@[3 * (
            k as int) + 2] == v);
        }
        k = k + 1;
    }
    out
}

} // verus!
