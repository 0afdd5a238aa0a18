//! The arithmetic behind the sampler: bit lengths, the stateless
//! acceptance rule, how many observations have been accepted after any
//! prefix of the stream, and the storage index each accepted observation
//! overwrites.

use vstd::arithmetic::div_mod::*;
use vstd::arithmetic::power2::*;
use vstd::prelude::*;

verus! {

/// Number of significant bits in the binary representation of `i`
/// (zero for `i == 0`).
pub open spec fn bit_length(i: nat) -> nat
    decreases i,
{
    if i == 0 {
        0
    } else {
        bit_length(i / 2) + 1
    }
}

/// Base-2 logarithm of `n`, rounded down.
pub open spec fn log2(n: nat) -> nat
    decreases n,
{
    if n <= 1 {
        0
    } else {
        log2(n / 2) + 1
    }
}

/// A valid buffer capacity: a power of two, greater than one.
pub open spec fn valid_capacity(n: nat) -> bool {
    n > 1 && pow2(log2(n)) == n
}

/// How many low bits of the observation index `i` must be zero for the
/// i-th observation to be accepted, for a buffer of capacity `2^l`.
pub open spec fn counter_bits(l: nat, i: nat) -> nat {
    if bit_length(i) > l {
        (bit_length(i) - l) as nat
    } else {
        0
    }
}

/// The stateless acceptance rule: the i-th observation (counting from 0)
/// is kept iff its index is a multiple of `2^counter_bits(l, i)`.
pub open spec fn accepts(l: nat, i: nat) -> bool {
    i % pow2(counter_bits(l, i)) == 0
}

/// Number of observations among the first `i` (indices `0 .. i`) that the
/// acceptance rule keeps.
pub open spec fn accepted_below(l: nat, i: nat) -> nat
    decreases i,
{
    if i == 0 {
        0
    } else {
        accepted_below(l, (i - 1) as nat) + if accepts(l, (i - 1) as nat) {
            1nat
        } else {
            0nat
        }
    }
}

/// Storage slot overwritten by the accepted observation with global
/// index `i`, for capacity `n`: slot 0 holds observation 0 forever, the
/// other slots cycle with period `n - 1`.
pub open spec fn storage_index(n: nat, i: nat) -> nat {
    if i == 0 {
        0
    } else {
        ((i - 1) as nat % (n - 1) as nat) + 1
    }
}

/// `a / b` rounded up.
pub open spec fn div_ceil(a: nat, b: nat) -> nat {
    ((a + b - 1) as nat) / b
}

/// The bit length grows with its argument.
pub proof fn lemma_bit_length_monotone(i: nat, j: nat)
    requires
        i <= j,
    ensures
        bit_length(i) <= bit_length(j),
    decreases j,
{
    if i > 0 {
        lemma_div_is_ordered(i as int, j as int, 2);
        lemma_bit_length_monotone(i / 2, j / 2);
    }
}

/// `bit_length(i) == b + 1` exactly when `2^b <= i < 2^(b+1)`.
pub proof fn lemma_bit_length_interval(i: nat, b: nat)
    requires
        pow2(b) <= i < pow2(b + 1),
    ensures
        bit_length(i) == b + 1,
    decreases b,
{
    lemma_pow2_pos(b);
    lemma_fundamental_div_mod(i as int, 2);
    if b == 0 {
        lemma2_to64();
        assert(bit_length(0) == 0);
        assert(bit_length(1) == 1);
    } else {
        lemma_pow2_unfold(b);
        lemma_pow2_unfold(b + 1);
        lemma_bit_length_interval(i / 2, (b - 1) as nat);
    }
}

/// Conversely, an index with bit length `b + 1` lies in `[2^b, 2^(b+1))`.
pub proof fn lemma_bit_length_bounds(i: nat)
    requires
        i > 0,
    ensures
        bit_length(i) >= 1,
        pow2((bit_length(i) - 1) as nat) <= i < pow2(bit_length(i)),
    decreases i,
{
    lemma_fundamental_div_mod(i as int, 2);
    if i == 1 {
        lemma2_to64();
        assert(bit_length(0) == 0);
        assert(bit_length(1) == 1);
    } else {
        lemma_bit_length_bounds(i / 2);
        lemma_pow2_unfold(bit_length(i));
        lemma_pow2_unfold((bit_length(i) - 1) as nat);
    }
}

/// Observations with indices below the capacity are always accepted.
pub proof fn lemma_accepts_small(l: nat, i: nat)
    requires
        i < pow2(l),
    ensures
        accepts(l, i),
{
    if i > 0 {
        lemma_bit_length_bounds(i);
        if bit_length(i) > l {
            lemma_pow2_strictly_increases(l, (bit_length(i) - 1) as nat);
        }
    }
    assert(counter_bits(l, i) == 0);
    lemma2_to64();
    assert(i as int % 1 == 0) by (nonlinear_arith);
}

/// Until the capacity-th observation, everything is accepted.
pub proof fn lemma_accepted_below_small(l: nat, i: nat)
    requires
        i <= pow2(l),
    ensures
        accepted_below(l, i) == i,
    decreases i,
{
    if i > 0 {
        lemma_accepted_below_small(l, (i - 1) as nat);
        lemma_accepts_small(l, (i - 1) as nat);
    }
}

/// The accepted count never exceeds the number of observations seen.
pub proof fn lemma_accepted_below_le(l: nat, i: nat)
    ensures
        accepted_below(l, i) <= i,
    decreases i,
{
    if i > 0 {
        lemma_accepted_below_le(l, (i - 1) as nat);
    }
}

/// The accepted count grows with the stream.
pub proof fn lemma_accepted_below_monotone(l: nat, i: nat, j: nat)
    requires
        i <= j,
    ensures
        accepted_below(l, i) <= accepted_below(l, j),
    decreases j,
{
    if i < j {
        lemma_accepted_below_monotone(l, i, (j - 1) as nat);
    }
}

/// A higher power of two is divisible by a lower one.
pub proof fn lemma_pow2_mod_zero(a: nat, b: nat)
    requires
        b <= a,
    ensures
        pow2(a) % pow2(b) == 0,
{
    lemma_pow2_adds((a - b) as nat, b);
    lemma_pow2_pos(b);
    lemma_mod_multiples_basic(pow2((a - b) as nat) as int, pow2(b) as int);
}

/// Dividing zero, rounded up, is zero.
pub proof fn lemma_div_ceil_zero(b: nat)
    requires
        b >= 1,
    ensures
        div_ceil(0, b) == 0,
{
    lemma_basic_div((b - 1) as int, b as int);
}

/// Extending the dividend by one raises the rounded-up quotient exactly
/// at the multiples of the divisor.
pub proof fn lemma_div_ceil_step(a: nat, b: nat)
    requires
        b >= 1,
    ensures
        div_ceil(a + 1, b) == div_ceil(a, b) + if a % b == 0 {
            1nat
        } else {
            0nat
        },
{
    let q = a / b;
    let r = a % b;
    lemma_fundamental_div_mod(a as int, b as int);
    assert((q as int + 1) * b as int == q as int * b as int + b as int) by (nonlinear_arith);
    assert(q as int * b as int == b as int * q as int) by (nonlinear_arith);
    if r == 0 {
        lemma_fundamental_div_mod_converse(
            (a + b - 1) as int,
            b as int,
            q as int,
            (b - 1) as int,
        );
        lemma_fundamental_div_mod_converse((a + b) as int, b as int, q as int + 1, 0);
    } else {
        lemma_fundamental_div_mod_converse(
            (a + b - 1) as int,
            b as int,
            q as int + 1,
            (r - 1) as int,
        );
        lemma_fundamental_div_mod_converse((a + b) as int, b as int, q as int + 1, r as int);
    }
}

/// An exact multiple of the divisor divides, rounded up, to its factor.
pub proof fn lemma_div_ceil_exact(m: nat, b: nat)
    requires
        b >= 1,
    ensures
        div_ceil(m * b, b) == m,
{
    lemma_fundamental_div_mod_converse((m * b + b - 1) as int, b as int, m as int, (b - 1) as int);
}

/// The rounded-up quotient of anything up to `m * b` is at most `m`.
pub proof fn lemma_div_ceil_le(a: nat, b: nat, m: nat)
    requires
        b >= 1,
        a <= m * b,
    ensures
        div_ceil(a, b) <= m,
{
    lemma_div_is_ordered((a + b - 1) as int, (m * b + b - 1) as int, b as int);
    lemma_fundamental_div_mod_converse((m * b + b - 1) as int, b as int, m as int, (b - 1) as int);
}

/// The rounded-up quotient of anything positive is positive.
pub proof fn lemma_div_ceil_pos(a: nat, b: nat)
    requires
        b >= 1,
        a >= 1,
    ensures
        div_ceil(a, b) >= 1,
{
    lemma_div_is_ordered(b as int, (a + b - 1) as int, b as int);
    lemma_div_by_self(b as int);
}

/// Stepping the cyclic counter of a sampler with divisor `d` from
/// observation `i - 1` to observation `i`.
pub proof fn lemma_mod_succ(i: nat, d: nat)
    requires
        i >= 1,
        d >= 1,
    ensures
        ((i - 1) as nat % d + 1) % d == i % d,
{
    let q = (i - 1) as nat / d;
    let r = (i - 1) as nat % d;
    lemma_fundamental_div_mod((i - 1) as int, d as int);
    assert((q as int + 1) * d as int == q as int * d as int + d as int) by (nonlinear_arith);
    assert(q as int * d as int == d as int * q as int) by (nonlinear_arith);
    if r + 1 == d {
        lemma_mod_self_0(d as int);
        lemma_fundamental_div_mod_converse(i as int, d as int, q as int + 1, 0);
    } else {
        lemma_small_mod((r + 1) as nat, d);
        lemma_fundamental_div_mod_converse(i as int, d as int, q as int, (r + 1) as int);
    }
}

/// In the t-th regime (`2^(l+t-1) <= i < 2^(l+t)`), the acceptance rule masks
/// exactly `t` low bits.
pub proof fn lemma_counter_bits_regime(l: nat, t: nat, i: nat)
    requires
        t >= 1,
        pow2((l + t - 1) as nat) <= i < pow2(l + t),
    ensures
        counter_bits(l, i) == t,
{
    lemma_bit_length_interval(i, (l + t - 1) as nat);
}

/// Exponent of the sampling divisor right before observation `i` is
/// presented, under the controller's halving schedule.
pub open spec fn divisor_exponent(l: nat, i: nat) -> nat {
    if i == 0 {
        0
    } else {
        counter_bits(l, (i - 1) as nat)
    }
}

/// Value of the sampler's cyclic counter right before observation `i` is
/// presented.
pub open spec fn divisor_counter(l: nat, i: nat) -> nat {
    if i == 0 {
        0
    } else {
        ((i - 1) as nat) % pow2(counter_bits(l, (i - 1) as nat))
    }
}

/// The halving schedule fires on an accepted observation when the
/// accepted count so far reaches the capacity or a further
/// half-capacity boundary past it.
pub open spec fn schedule_fires(l: nat, m: nat) -> bool {
    m >= pow2(l) && ((m - pow2(l)) as nat) % pow2((l - 1) as nat) == 0
}

/// Closed form for the accepted count inside regime `t`: the initial
/// fill contributes `2^l`, every completed regime before `t` another
/// `2^(l-1)`, and within regime `t` one observation per started block
/// of `2^t`.
pub proof fn lemma_accepted_below_regime(l: nat, t: nat, i: nat)
    requires
        l >= 1,
        t >= 1,
        pow2((l + t - 1) as nat) <= i <= pow2(l + t),
    ensures
        accepted_below(l, i) == pow2(l) + (t - 1) * pow2((l - 1) as nat) + div_ceil(
            (i - pow2((l + t - 1) as nat)) as nat,
            pow2(t),
        ),
    decreases t, i,
{
    let base = pow2((l + t - 1) as nat);
    let p = pow2(t);
    let half = pow2((l - 1) as nat);
    lemma_pow2_pos(t);
    lemma_pow2_pos((l - 1) as nat);
    if i == base {
        lemma_div_ceil_zero(p);
        if t == 1 {
            lemma_accepted_below_small(l, i);
        } else {
            lemma_pow2_strictly_increases((l + t - 2) as nat, (l + t - 1) as nat);
            lemma_accepted_below_regime(l, (t - 1) as nat, i);
            lemma_pow2_unfold((l + t - 1) as nat);
            lemma_pow2_adds((l - 1) as nat, (t - 1) as nat);
            lemma_div_ceil_exact(half, pow2((t - 1) as nat));
            assert((t - 2) as int * half as int + half as int == (t - 1) as int * half as int)
                by (nonlinear_arith);
        }
    } else {
        lemma_accepted_below_regime(l, t, (i - 1) as nat);
        lemma_counter_bits_regime(l, t, (i - 1) as nat);
        let a = (i - 1 - base) as nat;
        lemma_div_ceil_step(a, p);
        lemma_pow2_adds((l - 1) as nat, t);
        lemma_mod_multiples_vanish(half as int, a as int, p as int);
        assert(p as int * half as int == half as int * p as int) by (nonlinear_arith);
        assert((i - 1) as int == p as int * half as int + a as int);
        assert((i - 1) as nat % p == a % p);
    }
}

/// The number of masked bits only ever grows, by at most one per
/// observation, and it grows exactly at the powers of two past the
/// capacity.
pub proof fn lemma_counter_bits_growth(l: nat, i: nat)
    requires
        i >= 1,
    ensures
        counter_bits(l, (i - 1) as nat) <= counter_bits(l, i) <= counter_bits(l, (i - 1) as nat)
            + 1,
        counter_bits(l, i) == counter_bits(l, (i - 1) as nat) + 1 ==> bit_length(i) > l && i
            == pow2((bit_length(i) - 1) as nat),
    decreases i,
{
    lemma_bit_length_bounds(i);
    let b = (bit_length(i) - 1) as nat;
    if i == 1 {
        lemma2_to64();
        assert(bit_length(0) == 0);
        assert(bit_length(1) == 1);
    } else {
        if i > pow2(b) {
            lemma_bit_length_interval((i - 1) as nat, b);
        } else {
            if b == 0 {
                lemma2_to64();
                assert(false);
            }
            lemma_pow2_unfold(b);
            lemma_pow2_pos((b - 1) as nat);
            lemma_bit_length_interval((i - 1) as nat, (b - 1) as nat);
        }
    }
}

/// The stateful sampler, whose divisor tracks the masked bits of the
/// previous observation, makes the same decision as the stateless rule.
pub proof fn lemma_divisor_test_agrees(l: nat, i: nat)
    requires
        l >= 1,
        i >= 1,
    ensures
        accepts(l, i) <==> i % pow2(counter_bits(l, (i - 1) as nat)) == 0,
{
    lemma_counter_bits_growth(l, i);
    if counter_bits(l, i) != counter_bits(l, (i - 1) as nat) {
        let b = (bit_length(i) - 1) as nat;
        lemma_pow2_mod_zero(b, counter_bits(l, i));
        lemma_pow2_mod_zero(b, counter_bits(l, (i - 1) as nat));
    }
}

/// The two acceptance formulations agree at every stream position and
/// for every capacity: the stateful divisor-and-counter test, holding
/// the divisor the halving schedule prescribes for observation `i`,
/// steps its cyclic counter to zero exactly when the stateless
/// low-bits rule accepts `i`.
pub proof fn lemma_acceptance_forms_agree(l: nat, i: nat)
    requires
        l >= 1,
    ensures
        accepts(l, i) <==> (divisor_counter(l, i) + 1) % pow2(divisor_exponent(l, i)) == 0,
{
    if i == 0 {
        lemma2_to64();
        lemma_mod_self_0(1);
        assert(counter_bits(l, 0) == 0);
        assert(0int % 1 == 0) by (nonlinear_arith);
    } else {
        lemma_pow2_pos(counter_bits(l, (i - 1) as nat));
        lemma_mod_succ(i, pow2(counter_bits(l, (i - 1) as nat)));
        lemma_divisor_test_agrees(l, i);
    }
}

/// A rejected observation never moves the mask.
pub proof fn lemma_reject_keeps_counter_bits(l: nat, i: nat)
    requires
        l >= 1,
        i >= 1,
        !accepts(l, i),
    ensures
        counter_bits(l, i) == counter_bits(l, (i - 1) as nat),
{
    lemma_counter_bits_growth(l, i);
    if counter_bits(l, i) == counter_bits(l, (i - 1) as nat) + 1 {
        let b = (bit_length(i) - 1) as nat;
        lemma_pow2_mod_zero(b, counter_bits(l, i));
    }
}

/// On an accepted observation, the halving schedule fires exactly when
/// the stateless mask widens by one bit.
pub proof fn lemma_fire_iff(l: nat, i: nat)
    requires
        l >= 1,
        i >= 1,
        accepts(l, i),
    ensures
        schedule_fires(l, accepted_below(l, i)) <==> counter_bits(l, i) == counter_bits(
            l,
            (i - 1) as nat,
        ) + 1,
        !schedule_fires(l, accepted_below(l, i)) ==> counter_bits(l, i) == counter_bits(
            l,
            (i - 1) as nat,
        ),
{
    let n = pow2(l);
    let half = pow2((l - 1) as nat);
    let m = accepted_below(l, i);
    lemma_pow2_unfold(l);
    lemma_pow2_pos((l - 1) as nat);
    lemma_counter_bits_growth(l, i);
    if i < n {
        lemma_accepted_below_small(l, i);
        lemma_bit_length_bounds(i);
        if bit_length(i) > l {
            if bit_length(i) - 1 > l {
                lemma_pow2_strictly_increases(l, (bit_length(i) - 1) as nat);
            }
            assert(false);
        }
        lemma_bit_length_monotone((i - 1) as nat, i);
    } else {
        lemma_bit_length_bounds(i);
        if bit_length(i) <= l {
            if bit_length(i) < l {
                lemma_pow2_strictly_increases(bit_length(i), l);
            }
            assert(false);
        }
        let t = (bit_length(i) - l) as nat;
        assert(t >= 1);
        assert(l + t - 1 == bit_length(i) - 1);
        let base = pow2((l + t - 1) as nat);
        let p = pow2(t);
        lemma_pow2_pos(t);
        lemma_accepted_below_regime(l, t, i);
        lemma_counter_bits_regime(l, t, i);
        let dc = div_ceil((i - base) as nat, p);
        if i == base {
            lemma_div_ceil_zero(p);
            lemma_mod_multiples_basic((t - 1) as int, half as int);
            assert(schedule_fires(l, m));
            if t == 1 {
                lemma_bit_length_interval((i - 1) as nat, (l - 1) as nat);
            } else {
                lemma_pow2_strictly_increases((l + t - 2) as nat, (l + t - 1) as nat);
                lemma_bit_length_interval((i - 1) as nat, (l + t - 2) as nat);
            }
            assert(counter_bits(l, (i - 1) as nat) == (t - 1) as nat);
        } else {
            lemma_div_ceil_pos((i - base) as nat, p);
            // An accepted observation inside the regime stays at least one
            // full block short of the next regime.
            let q = i / p;
            lemma_fundamental_div_mod(i as int, p as int);
            lemma_pow2_adds(l, t);
            assert(q < pow2(l)) by (nonlinear_arith)
                requires
                    i as int == p as int * q as int + 0,
                    (i as int) < pow2(l + t) as int,
                    pow2(l + t) == pow2(l) * pow2(t),
                    p == pow2(t),
                    p >= 1,
                    q >= 0,
            ;
            assert(i as int <= p as int * (pow2(l) - 1)) by (nonlinear_arith)
                requires
                    i as int == p as int * q as int + 0,
                    q as int <= pow2(l) as int - 1,
                    p >= 1,
            ;
            lemma_pow2_adds((l - 1) as nat, t);
            lemma_pow2_unfold(l + t);
            assert((i - base) as int <= (half - 1) as int * p as int) by (nonlinear_arith)
                requires
                    i as int <= p as int * (pow2(l) as int - 1),
                    base == pow2((l + t - 1) as nat),
                    pow2((l + t - 1) as nat) == pow2((l - 1) as nat) * pow2(t),
                    pow2(l) == 2 * pow2((l - 1) as nat),
                    half == pow2((l - 1) as nat),
                    p == pow2(t),
            ;
            lemma_div_ceil_le((i - base) as nat, p, (half - 1) as nat);
            lemma_mod_multiples_vanish((t - 1) as int, dc as int, half as int);
            lemma_small_mod(dc, half);
            assert(!schedule_fires(l, m));
            lemma_counter_bits_regime(l, t, (i - 1) as nat);
        }
    }
}

/// After any number of observations, the number retained is the smaller
/// of the stream length and the capacity.
pub proof fn lemma_retained_count(l: nat, i: nat)
    ensures
        i <= pow2(l) ==> accepted_below(l, i) == i,
        i >= pow2(l) ==> accepted_below(l, i) >= pow2(l),
{
    if i <= pow2(l) {
        lemma_accepted_below_small(l, i);
    } else {
        lemma_accepted_below_small(l, pow2(l));
        lemma_accepted_below_monotone(l, pow2(l), i);
    }
}

/// Bounding the observation index bounds the number of masked bits.
pub proof fn lemma_counter_bits_bound(l: nat, i: nat, c: nat)
    requires
        i < pow2(l + c),
    ensures
        counter_bits(l, i) <= c,
{
    if i > 0 {
        lemma_bit_length_bounds(i);
        if bit_length(i) > l + c {
            lemma_pow2_strictly_increases(l + c, (bit_length(i) - 1) as nat);
        }
    }
}

/// A valid capacity has a positive logarithm.
pub proof fn lemma_capacity_log(n: nat)
    requires
        valid_capacity(n),
    ensures
        log2(n) >= 1,
        pow2(log2(n)) == n,
{
    if log2(n) == 0 {
        lemma2_to64();
    }
}

/// pow2 never shrinks.
pub proof fn lemma_pow2_le(a: nat, b: nat)
    requires
        a <= b,
    ensures
        pow2(a) <= pow2(b),
{
    if a < b {
        lemma_pow2_strictly_increases(a, b);
    }
}

/// The logarithm is smaller than its argument.
pub proof fn lemma_log2_lt(n: nat)
    requires
        n >= 1,
    ensures
        log2(n) < n,
    decreases n,
{
    if n > 1 {
        lemma_log2_lt(n / 2);
    }
}

/// The bit length is no larger than the number itself, once positive.
pub proof fn lemma_bit_length_le(i: nat)
    requires
        i >= 1,
    ensures
        bit_length(i) <= i,
    decreases i,
{
    if i == 1 {
        assert(bit_length(0) == 0);
        assert(bit_length(1) == 1);
    } else {
        lemma_bit_length_le(i / 2);
        lemma_fundamental_div_mod(i as int, 2);
    }
}

/// Computes the rounded-down base-2 logarithm.
pub fn log2_exec(n: usize) -> (r: usize)
    requires
        n >= 1,
    ensures
        r == log2(n as nat),
{
    let mut x: usize = n;
    let mut l: usize = 0;
    proof {
        lemma_log2_lt(n as nat);
    }
    while x > 1
        invariant
            1 <= x <= n,
            log2(n as nat) == l + log2(x as nat),
            log2(n as nat) < n,
        decreases x,
    {
        x = x / 2;
        l = l + 1;
    }
    l
}

/// Computes 2 to the given power.
pub fn pow2_exec(e: usize) -> (r: usize)
    requires
        pow2(e as nat) <= usize::MAX,
    ensures
        r == pow2(e as nat),
{
    let mut r: usize = 1;
    let mut k: usize = 0;
    proof {
        lemma2_to64();
    }
    while k < e
        invariant
            k <= e,
            r == pow2(k as nat),
            pow2(e as nat) <= usize::MAX,
        decreases e - k,
    {
        proof {
            lemma_pow2_le((k + 1) as nat, e as nat);
            lemma_pow2_unfold((k + 1) as nat);
        }
        r = r * 2;
        k = k + 1;
    }
    r
}

/// Computes the bit length.
pub fn bit_length_exec(i: usize) -> (r: usize)
    ensures
        r == bit_length(i as nat),
{
    let mut x: usize = i;
    let mut b: usize = 0;
    proof {
        if i >= 1 {
            lemma_bit_length_le(i as nat);
        }
    }
    while x > 0
        invariant
            x <= i,
            bit_length(i as nat) == b + bit_length(x as nat),
            i >= 1 ==> bit_length(i as nat) <= i,
        decreases x,
    {
        proof {
            if x >= 1 {
                lemma_bit_length_bounds(x as nat);
            }
        }
        x = x / 2;
        b = b + 1;
    }
    b
}

} // verus!
