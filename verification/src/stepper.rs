//! Quantized logarithmic step engine.
//!
//! Brightness values live on a perceptually-uniform scale: the full range
//! `[0, max]` is divided into `num_steps` discrete positions, with position
//! `s` sitting near `max^(s / num_steps)`.  Everything here is computed with
//! exact integer arithmetic: `log_index` is a monotone fixed-point
//! approximation of the base-2 logarithm, `step_index` maps a brightness to
//! its scale position (the analogue of `ceil(num_steps * log_max(b))`), and
//! `brightness_at` maps a position back to the largest brightness at or
//! below it (the analogue of `floor(max^(s / num_steps))`).

use vstd::prelude::*;
use vstd::arithmetic::div_mod::lemma_div_is_ordered;
use vstd::arithmetic::div_mod::lemma_div_multiples_vanish_fancy;
use vstd::arithmetic::div_mod::lemma_multiply_divide_lt;

verus! {

/// 2 to the power `k`.
pub open spec fn pow2(k: nat) -> nat
    decreases k,
{
    if k == 0 {
        1
    } else {
        2 * pow2((k - 1) as nat)
    }
}

/// Position of the highest set bit: `floor(log2(x))` for `x >= 1`.
pub open spec fn log2(x: nat) -> nat
    decreases x,
{
    if x < 2 {
        0
    } else {
        1 + log2(x / 2)
    }
}

/// Fixed-point base-2 logarithm, scaled by 256: `256 * log2(x)` plus a
/// linear interpolation between neighbouring powers of two.  Monotone in
/// `x`, zero exactly at `x = 1`, and at most `16383` for any `u64` input.
pub open spec fn log_index(x: nat) -> nat {
    if x < 1 {
        0
    } else {
        256 * log2(x) + (((x - pow2(log2(x))) * 256 / pow2(log2(x)) as int) as nat)
    }
}

pub proof fn lemma_pow2_pos(k: nat)
    ensures
        pow2(k) >= 1,
    decreases k,
{
    if k > 0 {
        lemma_pow2_pos((k - 1) as nat);
    }
}

pub proof fn lemma_pow2_mono(a: nat, b: nat)
    requires
        a <= b,
    ensures
        pow2(a) <= pow2(b),
    decreases b,
{
    if a < b {
        lemma_pow2_mono(a, (b - 1) as nat);
        lemma_pow2_pos((b - 1) as nat);
    }
}

/// `x` lies in the dyadic interval of its own bit length.
pub proof fn lemma_pow2_log2(x: nat)
    requires
        x >= 1,
    ensures
        pow2(log2(x)) <= x < 2 * pow2(log2(x)),
    decreases x,
{
    if x >= 2 {
        lemma_pow2_log2(x / 2);
    }
}

pub proof fn lemma_log2_mono(x: nat, y: nat)
    requires
        x <= y,
    ensures
        log2(x) <= log2(y),
    decreases x,
{
    if x >= 2 {
        lemma_log2_mono(x / 2, y / 2);
    }
}

/// The dyadic interval determines the bit position uniquely.
pub proof fn lemma_log2_unique(x: nat, k: nat)
    requires
        x >= 1,
        pow2(k) <= x,
        x < 2 * pow2(k),
    ensures
        k == log2(x),
{
    lemma_pow2_log2(x);
    if k < log2(x) {
        lemma_pow2_mono(k + 1, log2(x));
        assert(pow2(k + 1) == 2 * pow2(k));
    } else if k > log2(x) {
        lemma_pow2_mono(log2(x) + 1, k);
        assert(pow2(log2(x) + 1) == 2 * pow2(log2(x)));
    }
}

/// The interpolated fraction never reaches the next whole bit.
proof fn lemma_log_index_frac(x: nat)
    requires
        x >= 1,
    ensures
        0 <= (x - pow2(log2(x))) * 256 / (pow2(log2(x)) as int),
        (x - pow2(log2(x))) * 256 / (pow2(log2(x)) as int) < 256,
        log_index(x) < 256 * (log2(x) + 1),
{
    let p = pow2(log2(x)) as int;
    lemma_pow2_log2(x);
    lemma_pow2_pos(log2(x));
    assert((x - p) * 256 < p * 256) by (nonlinear_arith)
        requires
            0 <= x - p < p,
    ;
    lemma_multiply_divide_lt((x - p) * 256, p, 256);
    vstd::arithmetic::div_mod::lemma_div_pos_is_pos((x - p) * 256, p);
}

pub proof fn lemma_log_index_at_one()
    ensures
        log_index(1) == 0,
{
    assert(log2(1) == 0);
    assert(pow2(0) == 1);
}

pub proof fn lemma_log_index_pos(x: nat)
    requires
        x >= 2,
    ensures
        log_index(x) >= 256,
{
    assert(log2(x) >= 1);
    lemma_log_index_frac(x);
}

pub proof fn lemma_log_index_mono(x: nat, y: nat)
    requires
        1 <= x <= y,
    ensures
        log_index(x) <= log_index(y),
{
    lemma_log2_mono(x, y);
    lemma_pow2_log2(x);
    lemma_pow2_log2(y);
    lemma_pow2_pos(log2(x));
    lemma_pow2_pos(log2(y));
    lemma_log_index_frac(x);
    lemma_log_index_frac(y);
    if log2(x) == log2(y) {
        let p = pow2(log2(x)) as int;
        lemma_div_is_ordered((x - p) * 256, (y - p) * 256, p);
    } else {
        assert(log_index(x) < 256 * (log2(x) + 1) <= 256 * log2(y) <= log_index(y));
    }
}

/// Exact machine evaluation of `log_index`.
fn log_index_exec(x: u64) -> (r: u64)
    requires
        1 <= x,
    ensures
        r == log_index(x as nat),
        r <= 16383,
{
    let mut k: u64 = 0;
    let mut p: u64 = 1;
    while p <= x / 2
        invariant
            1 <= x,
            1 <= p <= x,
            p == pow2(k as nat),
            k <= 63,
        decreases x - p,
    {
        proof {
            assert(pow2((k + 1) as nat) == 2 * pow2(k as nat));
            if k + 1 >= 64 {
                lemma_pow2_mono(64, (k + 1) as nat);
                assert(pow2(64) == 0x10000000000000000) by {
                    reveal_with_fuel(pow2, 65);
                }
            }
        }
        p = p * 2;
        k = k + 1;
    }
    proof {
        lemma_log2_unique(x as nat, k as nat);
        lemma_log_index_frac(x as nat);
    }
    let frac: u64 = (((x - p) as u128 * 256) / (p as u128)) as u64;
    256 * k + frac
}

/// Scale position of brightness `b` on a scale with maximum `mx` and `n`
/// steps: the integer analogue of `ceil(n * log_mx(b))`, computed as a
/// ceiling division of fixed-point logarithms.  The smallest position whose
/// brightness (see `brightness_at`) is at least `b`.
pub open spec fn step_index(b: nat, mx: nat, n: nat) -> nat
    recommends
        1 <= b,
        2 <= mx,
{
    ((n * log_index(b) + log_index(mx) - 1) / (log_index(mx) as int)) as nat
}

pub proof fn lemma_step_index_mono(b1: nat, b2: nat, mx: nat, n: nat)
    requires
        1 <= b1 <= b2,
        2 <= mx,
    ensures
        step_index(b1, mx, n) <= step_index(b2, mx, n),
{
    let lm = log_index(mx) as int;
    lemma_log_index_pos(mx);
    lemma_log_index_mono(b1, b2);
    assert(n * log_index(b1) <= n * log_index(b2)) by (nonlinear_arith)
        requires
            log_index(b1) <= log_index(b2),
            n >= 0,
    ;
    lemma_div_is_ordered(
        n * log_index(b1) + lm - 1,
        n * log_index(b2) + lm - 1,
        lm,
    );
    vstd::arithmetic::div_mod::lemma_div_pos_is_pos(n * log_index(b1) + lm - 1, lm);
    vstd::arithmetic::div_mod::lemma_div_pos_is_pos(n * log_index(b2) + lm - 1, lm);
}

pub proof fn lemma_step_index_at_one(mx: nat, n: nat)
    requires
        2 <= mx,
    ensures
        step_index(1, mx, n) == 0,
{
    let lm = log_index(mx) as int;
    lemma_log_index_at_one();
    lemma_log_index_pos(mx);
    assert(n * log_index(1) == 0) by (nonlinear_arith)
        requires
            log_index(1) == 0,
    ;
    assert(lm * 1 == lm);
    lemma_multiply_divide_lt(lm - 1, lm, 1);
    vstd::arithmetic::div_mod::lemma_div_pos_is_pos(lm - 1, lm);
}

pub proof fn lemma_step_index_at_max(mx: nat, n: nat)
    requires
        2 <= mx,
    ensures
        step_index(mx, mx, n) == n,
{
    let lm = log_index(mx) as int;
    lemma_log_index_pos(mx);
    assert(n * log_index(mx) == lm * n) by (nonlinear_arith)
        requires
            lm == log_index(mx),
    ;
    lemma_div_multiples_vanish_fancy(n as int, lm - 1, lm);
}

pub proof fn lemma_step_index_le_n(b: nat, mx: nat, n: nat)
    requires
        1 <= b <= mx,
        2 <= mx,
    ensures
        step_index(b, mx, n) <= n,
{
    lemma_step_index_mono(b, mx, mx, n);
    lemma_step_index_at_max(mx, n);
}

pub proof fn lemma_step_index_pos(b: nat, mx: nat, n: nat)
    requires
        2 <= b,
        2 <= mx,
        1 <= n,
    ensures
        step_index(b, mx, n) >= 1,
{
    let lm = log_index(mx) as int;
    lemma_log_index_pos(mx);
    lemma_log_index_pos(b);
    assert(n * log_index(b) >= 1) by (nonlinear_arith)
        requires
            n >= 1,
            log_index(b) >= 1,
    ;
    lemma_div_is_ordered(lm, n * log_index(b) + lm - 1, lm);
    vstd::arithmetic::div_mod::lemma_div_by_self(lm);
}

/// Exact machine evaluation of `step_index`: the scale position of a
/// brightness, never past the end of the scale.
pub fn current_step(b: u64, mx: u64, n: u64) -> (r: u64)
    requires
        1 <= b <= mx,
        2 <= mx,
    ensures
        r == step_index(b as nat, mx as nat, n as nat),
        r <= n,
{
    let lb = log_index_exec(b);
    let lm = log_index_exec(mx);
    proof {
        lemma_log_index_pos(mx as nat);
        lemma_log_index_mono(b as nat, mx as nat);
        assert((n as int) * (lb as int) <= 0xFFFFFFFFFFFFFFFF * 16383) by (nonlinear_arith)
            requires
                0 <= n as int <= 0xFFFFFFFFFFFFFFFF,
                0 <= lb as int <= 16383,
        ;
        assert((n as int) * (lb as int) >= 0) by (nonlinear_arith)
            requires
                n as int >= 0,
                lb as int >= 0,
        ;
    }
    let num: u128 = (n as u128) * (lb as u128) + (lm as u128) - 1;
    let q: u128 = num / (lm as u128);
    proof {
        lemma_step_index_le_n(b as nat, mx as nat, n as nat);
        vstd::arithmetic::div_mod::lemma_div_pos_is_pos(num as int, lm as int);
    }
    q as u64
}

/// Largest brightness that sits at or below scale position `s`: the integer
/// analogue of `floor(mx^(s / n))`, found by binary search on `step_index`.
/// Positions past the end of the scale saturate at `mx`.
pub fn brightness_at(s: u64, mx: u64, n: u64) -> (r: u64)
    requires
        2 <= mx,
    ensures
        1 <= r <= mx,
        step_index(r as nat, mx as nat, n as nat) <= s,
        r < mx ==> step_index((r + 1) as nat, mx as nat, n as nat) > s,
{
    proof {
        lemma_step_index_at_one(mx as nat, n as nat);
    }
    let mut lo: u64 = 1;
    let mut hi: u64 = mx;
    while lo < hi
        invariant
            1 <= lo <= hi <= mx,
            2 <= mx,
            step_index(lo as nat, mx as nat, n as nat) <= s,
            hi < mx ==> step_index((hi + 1) as nat, mx as nat, n as nat) > s,
        decreases hi - lo,
    {
        let gap = hi - lo + 1;
        let mid = lo + gap / 2;
        proof {
            assert(gap / 2 >= 1);
            assert(gap / 2 <= hi - lo);
        }
        let fm = current_step(mid, mx, n);
        if fm <= s {
            lo = mid;
        } else {
            hi = mid - 1;
        }
    }
    lo
}

/// The data-model invariants: a usable maximum, a positive step count, and
/// a current brightness within range.  Their upkeep is the caller's duty;
/// the step engine promises its exact results only under them.
pub open spec fn valid_model(c: u64, mx: u64, n: u64) -> bool {
    mx > 0 && n > 0 && c <= mx
}

/// Brightness `v` is one of the values of the quantized scale: it is the
/// largest brightness at its own scale position (`mx` always is).
pub open spec fn in_scale(v: nat, mx: nat, n: nat) -> bool {
    1 <= v <= mx && (v == mx || step_index((v + 1) as nat, mx, n) > step_index(v, mx, n))
}

/// The smallest positive brightness is always on the scale.
pub proof fn lemma_one_in_scale(mx: nat, n: nat)
    requires
        1 <= mx,
        1 <= n,
    ensures
        in_scale(1, mx, n),
{
    if mx >= 2 {
        lemma_step_index_at_one(mx, n);
        lemma_step_index_pos(2, mx, n);
    }
}

/// The value `step_up` computes, as a total function of the model's three
/// numbers: `1` straight from darkness, saturation at `mx`, and otherwise
/// the nearest scale value strictly above the current brightness.  Total
/// and deterministic on every triple, the malformed ones included.
pub open spec fn step_up_spec(c: u64, mx: u64, n: u64) -> u64 {
    if c == 0 {
        1
    } else if c >= mx {
        mx
    } else {
        next_scale(c, mx, n)
    }
}

/// The value `step_down` computes, as a total function of the model's
/// three numbers: `0` from the smallest positive brightness or darkness,
/// `0` again for any triple breaking the data-model invariants, and
/// otherwise the nearest scale value strictly below the current
/// brightness.  Total and deterministic on every triple.
pub open spec fn step_down_spec(c: u64, mx: u64, n: u64) -> u64 {
    if c <= 1 {
        0
    } else if mx < 2 || n == 0 || c > mx {
        0
    } else {
        prev_scale(c, mx, n)
    }
}

/// What `step_up` returns: `1` straight from darkness, and otherwise the
/// nearest scale value strictly above the current brightness, saturating
/// at `mx`.  The result is pinned for every triple by `step_up_spec`;
/// the clauses after it spell out what that value satisfies.
pub open spec fn step_up_post(c: u64, mx: u64, n: u64, r: u64) -> bool {
    &&& r == step_up_spec(c, mx, n)
    &&& (c == 0 ==> r == 1)
    &&& (c <= mx ==> r >= c)
    &&& (mx >= 1 ==> r <= mx)
    &&& (valid_model(c, mx, n) ==> c <= r <= mx)
    &&& (valid_model(c, mx, n) && c == mx ==> r == mx)
    &&& (valid_model(c, mx, n) && c < mx ==> {
        &&& in_scale(r as nat, mx as nat, n as nat)
        &&& r > c
        &&& forall|v: u64|
            #[trigger] in_scale(v as nat, mx as nat, n as nat) && v > c ==> v >= r
    })
    &&& (valid_model(c, mx, n) ==> r == up_next(c, mx, n))
}

/// What `step_down` returns: `0` from the smallest positive brightness (or
/// from darkness), and otherwise the nearest scale value strictly below the
/// current brightness.  The result is pinned for every triple by
/// `step_down_spec`; the clauses after it spell out what that value
/// satisfies.
pub open spec fn step_down_post(c: u64, mx: u64, n: u64, r: u64) -> bool {
    &&& r == step_down_spec(c, mx, n)
    &&& r <= c
    &&& (c <= 1 ==> r == 0)
    &&& (valid_model(c, mx, n) && c >= 2 ==> {
        &&& in_scale(r as nat, mx as nat, n as nat)
        &&& r < c
        &&& forall|v: u64|
            #[trigger] in_scale(v as nat, mx as nat, n as nat) && v < c ==> v <= r
    })
    &&& (valid_model(c, mx, n) ==> r == down_next(c, mx, n))
}

/// The smallest scale value strictly above `v`, for `v < mx`.
pub open spec fn next_scale(v: u64, mx: u64, n: u64) -> u64
    decreases mx - v,
{
    if v + 1 >= mx {
        mx
    } else if in_scale((v + 1) as nat, mx as nat, n as nat) {
        (v + 1) as u64
    } else {
        next_scale((v + 1) as u64, mx, n)
    }
}

/// The largest scale value strictly below `c`, for `2 <= c`.
pub open spec fn prev_scale(c: u64, mx: u64, n: u64) -> u64
    decreases c,
{
    if c <= 2 {
        1
    } else if in_scale((c - 1) as nat, mx as nat, n as nat) {
        (c - 1) as u64
    } else {
        prev_scale((c - 1) as u64, mx, n)
    }
}

/// `next_scale` is the minimum of the scale values above `v`.
pub proof fn lemma_next_scale(v: u64, mx: u64, n: u64)
    requires
        v < mx,
    ensures
        ({
            let w = next_scale(v, mx, n);
            &&& v < w <= mx
            &&& in_scale(w as nat, mx as nat, n as nat)
            &&& forall|u: u64|
                #[trigger] in_scale(u as nat, mx as nat, n as nat) && u > v ==> u >= w
        }),
    decreases mx - v,
{
    if v + 1 >= mx {
        assert(in_scale(mx as nat, mx as nat, n as nat));
    } else if in_scale((v + 1) as nat, mx as nat, n as nat) {
    } else {
        lemma_next_scale((v + 1) as u64, mx, n);
    }
}

/// `prev_scale` stays below its argument, whatever the model.
proof fn lemma_prev_scale_lt(c: u64, mx: u64, n: u64)
    requires
        2 <= c,
    ensures
        1 <= prev_scale(c, mx, n) < c,
    decreases c,
{
    if c > 2 && !in_scale((c - 1) as nat, mx as nat, n as nat) {
        lemma_prev_scale_lt((c - 1) as u64, mx, n);
    }
}

/// `prev_scale` is the maximum of the scale values below `c`.
pub proof fn lemma_prev_scale(c: u64, mx: u64, n: u64)
    requires
        2 <= c <= mx,
        1 <= n,
    ensures
        ({
            let w = prev_scale(c, mx, n);
            &&& 1 <= w < c
            &&& in_scale(w as nat, mx as nat, n as nat)
            &&& forall|u: u64|
                #[trigger] in_scale(u as nat, mx as nat, n as nat) && u < c ==> u <= w
        }),
    decreases c,
{
    lemma_one_in_scale(mx as nat, n as nat);
    if c <= 2 {
    } else if in_scale((c - 1) as nat, mx as nat, n as nat) {
    } else {
        lemma_prev_scale((c - 1) as u64, mx, n);
    }
}

/// The brightness that one press of "up" moves to.
pub open spec fn up_next(c: u64, mx: u64, n: u64) -> u64 {
    if c >= mx {
        mx
    } else {
        next_scale(c, mx, n)
    }
}

/// The brightness that one press of "down" moves to.
pub open spec fn down_next(c: u64, mx: u64, n: u64) -> u64 {
    if c <= 1 {
        0
    } else {
        prev_scale(c, mx, n)
    }
}

/// All brightness values visited when "up" is pressed repeatedly from `c`
/// until the maximum is reached, endpoints included.
pub open spec fn up_chain(c: u64, mx: u64, n: u64) -> Set<u64>
    decreases mx - c,
    via up_chain_decreases
{
    if c >= mx {
        set![c]
    } else {
        up_chain(up_next(c, mx, n), mx, n).insert(c)
    }
}

#[via_fn]
proof fn up_chain_decreases(c: u64, mx: u64, n: u64) {
    if c < mx {
        lemma_next_scale(c, mx, n);
    }
}

/// All brightness values visited when "down" is pressed repeatedly from `c`
/// until darkness is reached, endpoints included.
pub open spec fn down_chain(c: u64, mx: u64, n: u64) -> Set<u64>
    decreases c,
    via down_chain_decreases
{
    if c == 0 {
        set![0u64]
    } else {
        down_chain(down_next(c, mx, n), mx, n).insert(c)
    }
}

#[via_fn]
proof fn down_chain_decreases(c: u64, mx: u64, n: u64) {
    if c >= 2 {
        lemma_prev_scale_lt(c, mx, n);
    }
}

/// The upward walk visits its start and every scale value above it.
proof fn lemma_up_chain_set(c: u64, mx: u64, n: u64)
    requires
        valid_model(c, mx, n),
        c == 0 || in_scale(c as nat, mx as nat, n as nat),
    ensures
        up_chain(c, mx, n) == Set::new(
            |v: u64| v == c || (in_scale(v as nat, mx as nat, n as nat) && v > c),
        ),
    decreases mx - c,
{
    let rhs = Set::new(|v: u64| v == c || (in_scale(v as nat, mx as nat, n as nat) && v > c));
    if c >= mx {
        assert forall|v: u64| rhs.contains(v) implies set![c].contains(v) by {
            if v != c {
                assert(in_scale(v as nat, mx as nat, n as nat) && v > c);
            }
        }
        assert(up_chain(c, mx, n) =~= rhs);
    } else {
        let w = up_next(c, mx, n);
        lemma_next_scale(c, mx, n);
        lemma_up_chain_set(w, mx, n);
        let inner = Set::new(
            |v: u64| v == w || (in_scale(v as nat, mx as nat, n as nat) && v > w),
        );
        assert forall|v: u64| rhs.contains(v) implies up_chain(c, mx, n).contains(v) by {
            if v != c {
                assert(in_scale(v as nat, mx as nat, n as nat) && v > c);
                if v != w {
                    assert(v >= w);
                    assert(inner.contains(v));
                }
            }
        }
        assert forall|v: u64| up_chain(c, mx, n).contains(v) implies rhs.contains(v) by {
            if v != c {
                assert(inner.contains(v));
            }
        }
        assert(up_chain(c, mx, n) =~= rhs);
    }
}

/// The downward walk visits its start, every scale value below it, and zero.
proof fn lemma_down_chain_set(c: u64, mx: u64, n: u64)
    requires
        valid_model(c, mx, n),
        c == 0 || in_scale(c as nat, mx as nat, n as nat),
    ensures
        down_chain(c, mx, n) == Set::new(
            |v: u64| v == c || v == 0 || (in_scale(v as nat, mx as nat, n as nat) && v < c),
        ),
    decreases c,
{
    let rhs = Set::new(
        |v: u64| v == c || v == 0 || (in_scale(v as nat, mx as nat, n as nat) && v < c),
    );
    if c == 0 {
        assert(down_chain(c, mx, n) =~= rhs);
    } else if c == 1 {
        lemma_down_chain_set(0, mx, n);
        assert(down_chain(c, mx, n) =~= rhs);
    } else {
        let w = prev_scale(c, mx, n);
        lemma_prev_scale(c, mx, n);
        lemma_down_chain_set(w, mx, n);
        let inner = Set::new(
            |v: u64| v == w || v == 0 || (in_scale(v as nat, mx as nat, n as nat) && v < w),
        );
        assert forall|v: u64| rhs.contains(v) implies down_chain(c, mx, n).contains(v) by {
            if v != c && v != 0 {
                assert(in_scale(v as nat, mx as nat, n as nat) && v < c);
                if v != w {
                    assert(v <= w);
                    assert(inner.contains(v));
                }
            }
        }
        assert forall|v: u64| down_chain(c, mx, n).contains(v) implies rhs.contains(v) by {
            if v != c {
                assert(inner.contains(v));
            }
        }
        assert(down_chain(c, mx, n) =~= rhs);
    }
}

/// Path symmetry: starting from darkness and pressing "up" until the
/// maximum visits exactly the same set of brightness values as starting
/// from the maximum and pressing "down" until darkness.
pub proof fn lemma_path_symmetry(mx: u64, n: u64)
    requires
        1 <= mx,
        1 <= n,
    ensures
        up_chain(0, mx, n) == down_chain(mx, mx, n),
{
    lemma_up_chain_set(0, mx, n);
    assert(in_scale(mx as nat, mx as nat, n as nat));
    lemma_down_chain_set(mx, mx, n);
    let ups = Set::new(|v: u64| v == 0 || (in_scale(v as nat, mx as nat, n as nat) && v > 0));
    let downs = Set::new(
        |v: u64| v == mx || v == 0 || (in_scale(v as nat, mx as nat, n as nat) && v < mx),
    );
    assert forall|v: u64| downs.contains(v) implies ups.contains(v) by {
        if v == mx {
            assert(in_scale(v as nat, mx as nat, n as nat));
        }
    }
    assert(ups =~= downs);
}

/// One addressable brightness device at a point in time: a current value, a
/// hardware maximum and a step count, plus derivation of an equal snapshot
/// with another current value.  A plain value type with no validation of
/// its own.
pub trait Bounded: Sized {
    spec fn spec_current(&self) -> u64;

    spec fn spec_max(&self) -> u64;

    spec fn spec_num_steps(&self) -> u64;

    fn current(&self) -> (r: u64)
        ensures
            r == self.spec_current(),
    ;

    fn max(&self) -> (r: u64)
        ensures
            r == self.spec_max(),
    ;

    fn num_steps(&self) -> (r: u64)
        ensures
            r == self.spec_num_steps(),
    ;

    fn with_current(&self, current: u64) -> (r: Self)
        ensures
            r.spec_current() == current,
            r.spec_max() == self.spec_max(),
            r.spec_num_steps() == self.spec_num_steps(),
    ;
}

/// The step engine: the next brightness for either direction, as a total
/// function of the device model.  Nothing is applied to the device.
///
/// "Up" from darkness always yields the smallest positive brightness, and
/// "down" from it always yields exact zero; everywhere else a press moves
/// to the adjacent scale value, so the upward and downward walks retrace
/// one another exactly (see [`lemma_path_symmetry`]).  Because the scale
/// arithmetic is exact, the nearest-neighbour search cannot overshoot a
/// finer intermediate value, and no correction pass is needed.  Both
/// operations are deterministic on every triple of model numbers: the
/// results are pinned by [`step_up_spec`] and [`step_down_spec`].  A model
/// that breaks the invariants of [`valid_model`] still gets an answer,
/// never a panic, though one without the scale-walk meaning.
pub trait Stepper: Bounded {
    fn step_up(&self) -> (r: u64)
        ensures
            step_up_post(self.spec_current(), self.spec_max(), self.spec_num_steps(), r),
    ;

    fn step_down(&self) -> (r: u64)
        ensures
            step_down_post(self.spec_current(), self.spec_max(), self.spec_num_steps(), r),
    ;
}

impl<B: Bounded> Stepper for B {
    fn step_up(&self) -> (r: u64) {
        let c = self.current();
        let mx = self.max();
        let n = self.num_steps();
        if c == 0 {
            proof {
                if valid_model(0, mx, n) {
                    lemma_one_in_scale(mx as nat, n as nat);
                    assert(next_scale(0, mx, n) == 1);
                }
            }
            1
        } else if c >= mx {
            mx
        } else {
            let s = current_step(c + 1, mx, n);
            let r = brightness_at(s, mx, n);
            proof {
                let mxn = mx as nat;
                let nn = n as nat;
                if r <= c {
                    lemma_step_index_mono((r + 1) as nat, (c + 1) as nat, mxn, nn);
                    assert(false);
                }
                if r < mx {
                    assert(in_scale(r as nat, mxn, nn));
                }
                assert forall|v: u64|
                    #[trigger] in_scale(v as nat, mxn, nn) && v > c implies v >= r by {
                    if v < r {
                        lemma_step_index_mono((v + 1) as nat, r as nat, mxn, nn);
                        lemma_step_index_mono((c + 1) as nat, v as nat, mxn, nn);
                        assert(false);
                    }
                }
                lemma_next_scale(c, mx, n);
                let w = next_scale(c, mx, n);
                assert(r >= w && w >= r);
            }
            r
        }
    }

    fn step_down(&self) -> (r: u64) {
        let c = self.current();
        let mx = self.max();
        let n = self.num_steps();
        if c <= 1 {
            0
        } else if mx < 2 || n == 0 || c > mx {
            0
        } else {
            proof {
                lemma_step_index_pos(c as nat, mx as nat, n as nat);
            }
            let s0 = current_step(c, mx, n);
            let r = brightness_at(s0 - 1, mx, n);
            proof {
                let mxn = mx as nat;
                let nn = n as nat;
                if r >= c {
                    lemma_step_index_mono(c as nat, r as nat, mxn, nn);
                    assert(false);
                }
                assert(in_scale(r as nat, mxn, nn));
                assert forall|v: u64|
                    #[trigger] in_scale(v as nat, mxn, nn) && v < c implies v <= r by {
                    if v > r {
                        lemma_step_index_mono((r + 1) as nat, v as nat, mxn, nn);
                        lemma_step_index_mono((v + 1) as nat, c as nat, mxn, nn);
                        assert(false);
                    }
                }
                lemma_prev_scale(c, mx, n);
                let w = prev_scale(c, mx, n);
                assert(r <= w && w <= r);
            }
            r
        }
    }
}

/// A synthetic device model backed by three plain fields: the production
/// implementer reads hardware attributes instead, and property tests drive
/// the engine through this one.
#[derive(Clone, Copy, Debug)]
pub struct MockBounded {
    pub current: u64,
    pub max: u64,
    pub num_steps: u64,
}

impl Bounded for MockBounded {
    open spec fn spec_current(&self) -> u64 {
        self.current
    }

    open spec fn spec_max(&self) -> u64 {
        self.max
    }

    open spec fn spec_num_steps(&self) -> u64 {
        self.num_steps
    }

    fn current(&self) -> u64 {
        self.current
    }

    fn max(&self) -> u64 {
        self.max
    }

    fn num_steps(&self) -> u64 {
        self.num_steps
    }

    fn with_current(&self, current: u64) -> MockBounded {
        MockBounded { current, max: self.max, num_steps: self.num_steps }
    }
}

} // verus!
