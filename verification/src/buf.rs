//! The sampling reservoir: a bounded buffer fed one observation at a
//! time.  An adaptive acceptance rule decides which observations are stored; the
//! sampling rate is halved after every `N/2` stored values, so the
//! buffer always holds an (approximately) evenly spaced subsequence of
//! the whole stream.

use crate::math::accepted_below;
use crate::math::accepts;
use crate::math::bit_length;
use crate::math::bit_length_exec;
use crate::math::counter_bits;
use crate::math::lemma_accepted_below_regime;
use crate::math::lemma_accepted_below_small;
use crate::math::lemma_accepts_small;
use crate::math::lemma_bit_length_interval;
use crate::math::lemma_div_ceil_exact;
use crate::math::divisor_counter;
use crate::math::divisor_exponent;
use crate::math::lemma_accepted_below_le;
use crate::math::lemma_bit_length_bounds;
use crate::math::lemma_capacity_log;
use crate::math::lemma_counter_bits_bound;
use crate::math::lemma_fire_iff;
use crate::math::lemma_divisor_test_agrees;
use crate::math::lemma_mod_succ;
use crate::math::lemma_pow2_le;
use crate::math::lemma_reject_keeps_counter_bits;
use crate::math::lemma_retained_count;
use crate::math::log2;
use crate::math::log2_exec;
use crate::math::pow2_exec;
use crate::math::schedule_fires;
use crate::math::storage_index;
use crate::math::valid_capacity;
use crate::rate::SamplingRate;
use vstd::arithmetic::div_mod::*;
use vstd::arithmetic::power2::*;
use vstd::pervasive::VecAdditionalExecFns;
use vstd::prelude::*;
use vstd::set_lib::lemma_int_range;
use vstd::set_lib::lemma_subset_equality;
use vstd::set_lib::set_int_range;

verus! {

/// A position sequence that enumerates positions of `tags` in strictly
/// ascending tag order.  Together with `p.len() == tags.len()` the
/// strict order makes `p` injective, hence a permutation of the
/// positions.
pub open spec fn is_sorting_permutation(tags: Seq<usize>, p: Seq<int>) -> bool {
    &&& p.len() == tags.len()
    &&& forall|r: int| 0 <= r < p.len() ==> 0 <= #[trigger] p[r] < tags.len()
    &&& forall|a: int, b: int|
        0 <= a < b < p.len() ==> tags[#[trigger] p[a]] < tags[#[trigger] p[b]]
}

/// `out` holds the values of `vals` reordered into ascending order of
/// their arrival tags.
pub open spec fn is_chronological<T>(tags: Seq<usize>, vals: Seq<T>, out: Seq<T>) -> bool {
    exists|p: Seq<int>|
        {
            &&& #[trigger] is_sorting_permutation(tags, p)
            &&& out.len() == p.len()
            &&& forall|r: int| 0 <= r < p.len() ==> out[r] == vals[#[trigger] p[r]]
        }
}

/// Every buffer position occurs in a sorting permutation: it is
/// injective between two finite ranges of the same size.
proof fn lemma_sorting_permutation_onto(tags: Seq<usize>, p: Seq<int>, x: int)
    requires
        is_sorting_permutation(tags, p),
        0 <= x < tags.len(),
    ensures
        exists|s: int| 0 <= s < p.len() && #[trigger] p[s] == x,
{
    let n = tags.len() as int;
    assert(p.no_duplicates()) by {
        assert forall|i: int, j: int|
            0 <= i < p.len() && 0 <= j < p.len() && i != j implies p[i] != p[j] by {
            if i < j {
                assert(tags[p[i]] < tags[p[j]]);
            } else {
                assert(tags[p[j]] < tags[p[i]]);
            }
        }
    }
    p.unique_seq_to_set();
    lemma_int_range(0, n);
    assert(p.to_set().subset_of(set_int_range(0, n))) by {
        assert forall|a: int| p.to_set().contains(a) implies set_int_range(0, n).contains(a) by {
            let r = choose|r: int| 0 <= r < p.len() && p[r] == a;
            assert(0 <= p[r] < tags.len());
        }
    }
    lemma_subset_equality(p.to_set(), set_int_range(0, n));
    assert(set_int_range(0, n).contains(x));
    assert(p.to_set().contains(x));
    assert(p.contains(x));
    let s = choose|i: int| 0 <= i < p.len() && p[i] == x;
    assert(p[s] == x);
}

/// Two sorting permutations of the same tags agree on every rank up
/// to `r`.
proof fn lemma_sorting_permutation_unique(tags: Seq<usize>, p1: Seq<int>, p2: Seq<int>, r: int)
    requires
        is_sorting_permutation(tags, p1),
        is_sorting_permutation(tags, p2),
        0 <= r <= tags.len(),
    ensures
        forall|j: int| 0 <= j < r ==> p1[j] == p2[j],
    decreases r,
{
    if r > 0 {
        lemma_sorting_permutation_unique(tags, p1, p2, r - 1);
        let j = r - 1;
        let x = p1[j];
        let y = p2[j];
        if x != y {
            lemma_sorting_permutation_onto(tags, p2, x);
            let s = choose|s: int| 0 <= s < p2.len() && #[trigger] p2[s] == x;
            lemma_sorting_permutation_onto(tags, p1, y);
            let s2 = choose|s: int| 0 <= s < p1.len() && #[trigger] p1[s] == y;
            if s < j {
                assert(p1[s] == p2[s]);
                assert(tags[p1[s]] < tags[p1[j]]);
                assert(false);
            } else if s == j {
                assert(false);
            } else {
                assert(tags[p2[j]] < tags[p2[s]]);
                if s2 < j {
                    assert(p1[s2] == p2[s2]);
                    assert(tags[p2[s2]] < tags[p2[j]]);
                    assert(false);
                } else if s2 == j {
                    assert(false);
                } else {
                    assert(tags[p1[j]] < tags[p1[s2]]);
                    assert(false);
                }
            }
        }
    }
}

/// The chronological read-out of a buffer is unique: any two outputs
/// satisfying [`is_chronological`] for the same tags and values are
/// equal.  In particular, the sort-based and the direct-computation
/// strategies produce identical output on every reachable state.
pub proof fn lemma_chronological_unique<T>(
    tags: Seq<usize>,
    vals: Seq<T>,
    out1: Seq<T>,
    out2: Seq<T>,
)
    requires
        is_chronological(tags, vals, out1),
        is_chronological(tags, vals, out2),
    ensures
        out1 == out2,
{
    let p1 = choose|p: Seq<int>|
        {
            &&& #[trigger] is_sorting_permutation(tags, p)
            &&& out1.len() == p.len()
            &&& forall|r: int| 0 <= r < p.len() ==> out1[r] == vals[#[trigger] p[r]]
        };
    let p2 = choose|p: Seq<int>|
        {
            &&& #[trigger] is_sorting_permutation(tags, p)
            &&& out2.len() == p.len()
            &&& forall|r: int| 0 <= r < p.len() ==> out2[r] == vals[#[trigger] p[r]]
        };
    lemma_sorting_permutation_unique(tags, p1, p2, tags.len() as int);
    assert forall|r: int| 0 <= r < out1.len() implies out1[r] == out2[r] by {
        assert(p1[r] == p2[r]);
        assert(out1[r] == vals[p1[r]]);
        assert(out2[r] == vals[p2[r]]);
    }
    assert(out1 =~= out2);
}

/// Sorts the positions `0 .. tags.len()` into ascending tag order, by
/// insertion.
fn sort_positions_by_tag(tags: &Vec<usize>) -> (perm: Vec<usize>)
    requires
        forall|a: int, b: int| 0 <= a < b < tags@.len() ==> tags@[a] != tags@[b],
    ensures
        perm@.len() == tags@.len(),
        forall|r: int| 0 <= r < perm@.len() ==> (#[trigger] perm@[r]) < tags@.len(),
        forall|a: int, b: int|
            0 <= a < b < perm@.len() ==> tags@[#[trigger] perm@[a] as int] < tags@[
                #[trigger] perm@[b] as int
            ],
{
    let n = tags.len();
    let mut perm: Vec<usize> = Vec::new();
    let mut s: usize = 0;
    while s < n
        invariant
            s <= n,
            n == tags@.len(),
            perm@.len() == s,
            forall|a: int, b: int| 0 <= a < b < tags@.len() ==> tags@[a] != tags@[b],
            forall|r: int| 0 <= r < perm@.len() ==> (#[trigger] perm@[r]) < s,
            forall|a: int, b: int|
                0 <= a < b < perm@.len() ==> tags@[#[trigger] perm@[a] as int] < tags@[
                    #[trigger] perm@[b] as int
                ],
        decreases n - s,
    {
        let mut idx: usize = 0;
        while idx < perm.len() && tags[perm[idx]] < tags[s]
            invariant
                idx <= perm@.len(),
                s < n,
                n == tags@.len(),
                perm@.len() == s,
                forall|r: int| 0 <= r < perm@.len() ==> (#[trigger] perm@[r]) < s,
                forall|r: int|
                    0 <= r < idx ==> tags@[#[trigger] perm@[r] as int] < tags@[s as int],
            decreases perm@.len() - idx,
        {
            idx = idx + 1;
        }
        let ghost q = perm@;
        proof {
            // Positions at and after the insertion point carry larger
            // tags than the one being inserted.
            assert forall|r: int| idx <= r < q.len() implies tags@[#[trigger] q[r] as int] > tags@[s as int] by {
                if (idx as int) < q.len() {
                    assert(tags@[q[idx as int] as int] != tags@[s as int]);
                    if r > idx {
                        assert(tags@[q[idx as int] as int] < tags@[q[r] as int]);
                    }
                } else {
                    assert(false);
                }
            }
            q.insert_ensures(idx as int, s);
        }
        perm.insert(idx, s);
        proof {
            assert forall|a: int, b: int| 0 <= a < b < perm@.len() implies tags@[#[trigger] perm@[a] as int] < tags@[#[trigger] perm@[b] as int] by {
                if b < idx {
                } else if a < idx && b == idx {
                    assert(perm@[a] == q[a]);
                } else if a < idx && b > idx {
                    assert(perm@[a] == q[a] && perm@[b] == q[b - 1]);
                } else if a == idx {
                    assert(perm@[b] == q[b - 1]);
                } else {
                    assert(perm@[a] == q[a - 1] && perm@[b] == q[b - 1]);
                }
            }
        }
        s = s + 1;
    }
    perm
}

/// Arrival index at chronological rank `r` when the buffer is spaced
/// `lo` apart and `nu` steps of the current overwrite pattern have
/// been taken: the oldest `nu` retained values are `2 * lo` apart, the
/// middle ones `lo`, and the newest `nu` again `2 * lo`.
pub open spec fn spaced_rank_tag(n: int, lo: int, nu: int, r: int) -> int {
    if r < nu {
        r * (2 * lo)
    } else if r < n - nu {
        nu * (2 * lo) + (r - nu) * lo
    } else {
        nu * (2 * lo) + (n - 2 * nu) * lo + (r - (n - nu)) * (2 * lo)
    }
}

/// The spacing the buffer has settled into after `seen` observations.
pub open spec fn view_spacing(n: nat, seen: nat) -> int {
    pow2((bit_length(((seen - 1) as nat) / ((n - 1) as nat)) - 1) as nat) as int
}

/// Arrival index of the value at chronological rank `r`, derived
/// directly from the counters, with no per-slot tag needed.
/// Meaningful for `seen >= n`.
pub open spec fn direct_rank_tag(n: nat, seen: nat, stored: nat, r: int) -> int {
    spaced_rank_tag(n as int, view_spacing(n, seen), (stored % ((n / 2) as nat)) as int, r)
}

/// Storage slot of the value at chronological rank `r`, derived
/// directly from the counters.
pub open spec fn direct_rank_slot(n: nat, seen: nat, stored: nat, r: int) -> nat {
    if seen < n {
        r as nat
    } else {
        storage_index(n, direct_rank_tag(n, seen, stored, r) as nat)
    }
}

/// Shape of an accepted observation past the initial fill: it is
/// exactly the next arrival index the direct-computation view expects,
/// and presenting it moves the view's spacing and pattern offset one
/// step along.
proof fn lemma_accept_shape(l: nat, i: nat)
    requires
        l >= 1,
        i >= pow2(l),
        accepts(l, i),
    ensures
        ({
            let n = pow2(l);
            let stored = accepted_below(l, i);
            let nu = (stored % ((n / 2) as nat)) as int;
            let lo = view_spacing(n, i);
            &&& lo >= 1
            &&& 0 <= nu
            &&& 2 * nu + 2 <= n
            &&& i as int == lo * (n as int + 2 * nu)
            &&& (2 * nu + 2 < n ==> view_spacing(n, (i + 1) as nat) == lo && ((stored + 1) % ((n
                / 2) as nat)) as int == nu + 1)
            &&& (2 * nu + 2 == n ==> view_spacing(n, (i + 1) as nat) == 2 * lo && ((stored + 1) % (
            (n / 2) as nat)) as int == 0)
        }),
{
    let n = pow2(l);
    let half = pow2((l - 1) as nat);
    let stored = accepted_below(l, i);
    lemma_pow2_unfold(l);
    lemma_pow2_pos((l - 1) as nat);
    lemma_pow2_pos(l);
    lemma_div_multiples_vanish(half as int, 2);
    assert((n / 2) as nat == half);
    lemma_bit_length_bounds(i);
    if bit_length(i) <= l {
        lemma_pow2_le(bit_length(i), l);
        assert(false);
    }
    let t = (bit_length(i) - l) as nat;
    assert(counter_bits(l, i) == t);
    let p = pow2(t);
    lemma_pow2_pos(t);
    lemma_pow2_adds((l - 1) as nat, t);
    lemma_pow2_adds(l, t);
    lemma_pow2_adds(l, (t - 1) as nat);
    let base = pow2((l + t - 1) as nat);
    assert(l + t - 1 == bit_length(i) - 1);
    assert(base <= i < pow2(l + t));
    assert(base == half * p);
    // The accepted index is an exact multiple of the current stride.
    lemma_fundamental_div_mod(i as int, p as int);
    let q = i as int / p as int;
    assert(i as int == p as int * q);
    assert(q >= half) by (nonlinear_arith)
        requires
            i as int == p as int * q,
            i >= half * p,
            p >= 1,
    ;
    assert(q < n) by (nonlinear_arith)
        requires
            i as int == p as int * q,
            (i as int) < pow2(l + t) as int,
            pow2(l + t) == pow2(l) * pow2(t),
            n == pow2(l),
            p == pow2(t),
            p >= 1,
    ;
    let c = (q - half) as nat;
    assert((i - base) as int == p as int * c as int) by (nonlinear_arith)
        requires
            i as int == p as int * q,
            base == half * p,
            c as int == q - half,
    ;
    lemma_div_ceil_exact(c, p);
    assert(c * p == p * c) by (nonlinear_arith);
    lemma_accepted_below_regime(l, t, i);
    assert(stored == n + (t - 1) * half + c);
    // The pattern offset equals the number of stride-t steps taken.
    assert(stored as int == half as int * (t + 1) + c as int) by (nonlinear_arith)
        requires
            stored == n + (t - 1) * half + c,
            n == 2 * half,
    ;
    lemma_mod_multiples_vanish((t + 1) as int, c as int, half as int);
    assert(c < half);
    lemma_small_mod(c, half);
    let nu = (stored % half) as int;
    assert(nu == c);
    // The current spacing is half the stride.
    let lo = pow2((t - 1) as nat) as int;
    lemma_pow2_unfold(t);
    assert(base == n * lo as nat) by (nonlinear_arith)
        requires
            base == pow2(l) * pow2((t - 1) as nat),
            n == pow2(l),
            lo == pow2((t - 1) as nat) as int,
    ;
    assert(i as int == lo * (n as int + 2 * nu)) by (nonlinear_arith)
        requires
            i as int == base + p as int * c as int,
            base == n * (lo as nat),
            p as int == 2 * lo,
            nu == c,
    ;
    assert(2 * nu + 2 <= n);
    // Bit-length of (i - 1) / (n - 1): the spacing the view derives.
    assert((n - 1) as int * lo < i) by (nonlinear_arith)
        requires
            i >= base,
            base == n * (lo as nat),
            lo >= 1,
            n >= 2,
    ;
    assert(i as int <= p as int * (n - 1) as int) by (nonlinear_arith)
        requires
            i as int == base + p as int * c as int,
            base == half * p,
            c as int <= half as int - 1,
            n == 2 * half,
            p >= 1,
    ;
    lemma_view_spacing_between(n, i, lo);
    assert(view_spacing(n, i) == lo);
    // After this observation: either the pattern continues, or it
    // completes and the spacing doubles.
    if 2 * nu + 2 < n {
        assert(stored as int + 1 == half as int * (t + 1) + (c + 1)) by (nonlinear_arith)
            requires
                stored as int == half as int * (t + 1) + c as int,
        ;
        lemma_mod_multiples_vanish((t + 1) as int, (c + 1) as int, half as int);
        lemma_small_mod((c + 1) as nat, half);
        assert(((stored + 1) % half) as int == nu + 1);
        assert((n - 1) as int * lo < i + 1) by (nonlinear_arith)
            requires
                (n - 1) as int * lo < i as int,
        ;
        assert(i as int + 1 <= p as int * (n - 1) as int) by (nonlinear_arith)
            requires
                i as int == base + p as int * c as int,
                base == half * p,
                c as int <= half as int - 2,
                n == 2 * half,
                p >= 2,
    ;
        lemma_view_spacing_between(n, (i + 1) as nat, lo);
    } else {
        assert(c as int == half as int - 1);
        assert(stored as int + 1 == half as int * (t + 2)) by (nonlinear_arith)
            requires
                stored as int == half as int * (t + 1) + c as int,
                c as int == half as int - 1,
        ;
        lemma_mod_multiples_basic((t + 2) as int, half as int);
        assert(half as int * (t + 2) == (t + 2) as int * half as int) by (nonlinear_arith);
        assert(((stored + 1) % half) as int == 0);
        assert(i as int == p as int * (n - 1) as int) by (nonlinear_arith)
            requires
                i as int == base + p as int * c as int,
                base == half * p,
                c as int == half as int - 1,
                n == 2 * half,
        ;
        assert((n - 1) as int * (2 * lo) < i + 1) by (nonlinear_arith)
            requires
                i as int == p as int * (n - 1) as int,
                p as int == 2 * lo,
                lo >= 1,
                n >= 2,
        ;
        assert(i as int + 1 <= (2 * p) as int * (n - 1) as int) by (nonlinear_arith)
            requires
                i as int == p as int * (n - 1) as int,
                p >= 1,
                n >= 2,
        ;
        lemma_pow2_unfold((t + 1) as nat);
        lemma_view_spacing_between(n, (i + 1) as nat, p as int);
    }
}

/// If the stream length sits strictly between `lo * (n - 1)` and
/// `2 * lo * (n - 1)` for a power of two `lo`, the view's derived
/// spacing is exactly `lo`.
proof fn lemma_view_spacing_between(n: nat, seen: nat, lo: int)
    requires
        n >= 2,
        seen >= 1,
        exists|e: nat| lo == pow2(e) as int,
        (n - 1) as int * lo < seen as int <= 2 * lo * (n - 1) as int,
    ensures
        view_spacing(n, seen) == lo,
{
    let e = choose|e: nat| lo == pow2(e) as int;
    let q = ((seen - 1) as nat) / ((n - 1) as nat);
    lemma_fundamental_div_mod((seen - 1) as int, (n - 1) as int);
    lemma_mod_division_less_than_divisor((seen - 1) as int, (n - 1) as int);
    assert(q as int >= lo) by (nonlinear_arith)
        requires
            (seen - 1) as int == (n - 1) as int * q as int + ((seen - 1) as int % (n - 1) as int),
            ((seen - 1) as int % (n - 1) as int) < (n - 1) as int,
            0 <= ((seen - 1) as int % (n - 1) as int),
            (n - 1) as int * lo < seen as int,
            n >= 2,
    ;
    assert((q as int) < 2 * lo) by (nonlinear_arith)
        requires
            (seen - 1) as int == (n - 1) as int * q as int + ((seen - 1) as int % (n - 1) as int),
            0 <= ((seen - 1) as int % (n - 1) as int),
            seen as int <= 2 * lo * (n - 1) as int,
            n >= 2,
            q >= 0,
    ;
    lemma_pow2_unfold((e + 1) as nat);
    lemma_bit_length_interval(q, e);
    lemma_pow2_pos(e);
}

/// A rejected observation leaves the view's derived spacing alone.
proof fn lemma_reject_keeps_spacing(l: nat, i: nat)
    requires
        l >= 1,
        i >= pow2(l),
        !accepts(l, i),
    ensures
        view_spacing(pow2(l), (i + 1) as nat) == view_spacing(pow2(l), i),
{
    let n = pow2(l);
    lemma_pow2_unfold(l);
    lemma_pow2_pos((l - 1) as nat);
    lemma_pow2_pos(l);
    lemma_bit_length_bounds(i);
    if bit_length(i) <= l {
        lemma_pow2_le(bit_length(i), l);
        assert(false);
    }
    let t = (bit_length(i) - l) as nat;
    assert(counter_bits(l, i) == t);
    let p = pow2(t);
    let lo = pow2((t - 1) as nat) as int;
    lemma_pow2_pos(t);
    lemma_pow2_pos((t - 1) as nat);
    lemma_pow2_unfold(t);
    lemma_pow2_adds(l, (t - 1) as nat);
    lemma_pow2_adds(l, t);
    assert(pow2((l + t - 1) as nat) <= i < pow2(l + t));
    assert(pow2((l + t - 1) as nat) == n * (lo as nat)) by (nonlinear_arith)
        requires
            pow2((l + t - 1) as nat) == pow2(l) * pow2((t - 1) as nat),
            n == pow2(l),
            lo == pow2((t - 1) as nat) as int,
    ;
    lemma_mod_multiples_basic((n - 1) as int, p as int);
    assert(i as int != (n - 1) as int * p as int) by {
        if i as int == (n - 1) as int * p as int {
            assert(((n - 1) as int * p as int) % p as int == 0);
            assert(false);
        }
    }
    assert((n - 1) as int * lo < i) by (nonlinear_arith)
        requires
            i >= n * (lo as nat),
            lo >= 1,
            n >= 2,
    ;
    if (i as int) < (n - 1) as int * p as int {
        assert(i as int <= 2 * lo * (n - 1) as int) by (nonlinear_arith)
            requires
                (i as int) < (n - 1) as int * p as int,
                p as int == 2 * lo,
        ;
        lemma_view_spacing_between(n, i, lo);
        lemma_view_spacing_between(n, (i + 1) as nat, lo);
    } else {
        assert(((n - 1) as int) * (p as int) < (i as int));
        assert(i as int + 1 <= 2 * p as int * (n - 1) as int) by (nonlinear_arith)
            requires
                (i as int) < pow2(l + t) as int,
                pow2(l + t) == pow2(l) * pow2(t),
                n == pow2(l),
                p == pow2(t),
                n >= 2,
                p >= 1,
        ;
        assert(((n - 1) as int) * (p as int) < (i as int) + 1);
        lemma_view_spacing_between(n, i, p as int);
        lemma_view_spacing_between(n, (i + 1) as nat, p as int);
    }
}

/// When the fill phase ends, the view's formula is the identity: the
/// k-th oldest value sits in slot k with arrival index k.
proof fn lemma_view_at_fill_end(l: nat, k: int)
    requires
        l >= 1,
        0 <= k < pow2(l),
    ensures
        direct_rank_tag(pow2(l), pow2(l), pow2(l), k) == k,
        direct_rank_slot(pow2(l), pow2(l), pow2(l), k) == k,
{
    let n = pow2(l);
    lemma_pow2_unfold(l);
    lemma_pow2_pos((l - 1) as nat);
    lemma_pow2_pos(l);
    let half = pow2((l - 1) as nat);
    lemma_div_multiples_vanish(half as int, 2);
    assert((n / 2) as nat == half);
    lemma_mod_multiples_basic(2, half as int);
    assert(n as int == 2 * half as int);
    assert(n % half == 0) by {
        assert((2 * half as int) % half as int == 0);
    }
    lemma_div_by_self((n - 1) as int);
    assert(((n - 1) as nat) / ((n - 1) as nat) == 1);
    assert(bit_length(0) == 0);
    assert(bit_length(1) == 1);
    lemma2_to64();
    assert(view_spacing(n, n) == 1);
    assert(spaced_rank_tag(n as int, 1, 0, k) == 0 * (2 * 1) + (k - 0) * 1);
    assert((k - 0) * 1 == k) by (nonlinear_arith);
    if k >= 1 {
        lemma_small_mod((k - 1) as nat, (n - 1) as nat);
    }
}

/// Arrival indices a multiple of `n - 1` apart land in the same
/// storage slot.
proof fn lemma_storage_index_shift(n: nat, x: nat, m: nat)
    requires
        n >= 2,
        x >= 1,
    ensures
        storage_index(n, (x + (n - 1) * m) as nat) == storage_index(n, x),
{
    lemma_mod_multiples_vanish(m as int, (x - 1) as int, (n - 1) as int);
    assert((n - 1) as int * m as int == m as int * (n - 1) as int) by (nonlinear_arith);
    assert((x + (n - 1) * m) as nat >= 1);
    assert(((x + (n - 1) * m - 1) as nat) % ((n - 1) as nat) == ((x - 1) as nat) % ((
    n - 1) as nat));
}

/// Taking one more step of the overwrite pattern drops the rank
/// `nu + 1` arrival index and appends the newly accepted one: all
/// other ranks keep their arrival indices.
proof fn lemma_spaced_shift(n: int, lo: int, nu: int, k: int)
    requires
        n >= 2,
        lo >= 1,
        0 <= nu,
        2 * nu + 2 < n,
        0 <= k < n,
    ensures
        k <= nu ==> spaced_rank_tag(n, lo, nu + 1, k) == spaced_rank_tag(n, lo, nu, k),
        nu < k < n - 1 ==> spaced_rank_tag(n, lo, nu + 1, k) == spaced_rank_tag(n, lo, nu, k + 1),
        k == n - 1 ==> spaced_rank_tag(n, lo, nu + 1, k) == lo * (n + 2 * nu),
{
    if k < nu + 1 {
        if k == nu {
            assert(nu * (2 * lo) + (nu - nu) * lo == nu * (2 * lo)) by (nonlinear_arith);
        }
    } else if k < n - (nu + 1) {
        assert((nu + 1) * (2 * lo) + (k - nu - 1) * lo == nu * (2 * lo) + (k + 1 - nu) * lo)
            by (nonlinear_arith);
    } else if k == n - nu - 1 {
        assert((nu + 1) * (2 * lo) + (n - 2 * (nu + 1)) * lo + (k - (n - (nu + 1))) * (2 * lo)
            == nu * (2 * lo) + (n - 2 * nu) * lo + (k + 1 - (n - nu)) * (2 * lo))
            by (nonlinear_arith)
            requires
                k == n - nu - 1,
        ;
        if k == n - 1 {
            assert((nu + 1) * (2 * lo) + (n - 2 * (nu + 1)) * lo + (k - (n - (nu + 1))) * (2 * lo)
                == lo * (n + 2 * nu)) by (nonlinear_arith)
                requires
                    k == n - nu - 1,
                    k == n - 1,
            ;
        }
    } else {
        assert((nu + 1) * (2 * lo) + (n - 2 * (nu + 1)) * lo + (k - (n - (nu + 1))) * (2 * lo)
            == nu * (2 * lo) + (n - 2 * nu) * lo + (k + 1 - (n - nu)) * (2 * lo))
            by (nonlinear_arith);
        if k == n - 1 {
            assert(nu * (2 * lo) + (n - 2 * nu) * lo + (n - 1 + 1 - (n - nu)) * (2 * lo) == lo * (
            n + 2 * nu)) by (nonlinear_arith);
        }
    }
}

/// Completing a pattern doubles the spacing and starts the next
/// pattern: rank for rank, the arrival indices carry over the same
/// way, with the rank `nu + 1` one dropped and the new one appended.
proof fn lemma_spaced_shift_roll(n: int, lo: int, k: int)
    requires
        n >= 2,
        n % 2 == 0,
        lo >= 1,
        0 <= k < n,
    ensures
        k <= n / 2 - 1 ==> spaced_rank_tag(n, 2 * lo, 0, k) == spaced_rank_tag(n, lo, n / 2 - 1, k),
        n / 2 - 1 < k < n - 1 ==> spaced_rank_tag(n, 2 * lo, 0, k) == spaced_rank_tag(
            n,
            lo,
            n / 2 - 1,
            k + 1,
        ),
        k == n - 1 ==> spaced_rank_tag(n, 2 * lo, 0, k) == lo * (n + 2 * (n / 2 - 1)),
{
    let nu = n / 2 - 1;
    assert(n == 2 * (n / 2)) by {
        lemma_fundamental_div_mod(n, 2);
    }
    assert(spaced_rank_tag(n, 2 * lo, 0, k) == k * (2 * lo));
    if k <= nu {
        if k < nu {
            assert(k * (2 * lo) == k * (2 * lo)) by (nonlinear_arith);
        } else {
            assert(nu * (2 * lo) + (k - nu) * lo == k * (2 * lo)) by (nonlinear_arith)
                requires
                    k == nu,
            ;
        }
    } else if k < n - 1 {
        assert(k + 1 >= n - nu) by (nonlinear_arith)
            requires
                k > nu,
                nu == n / 2 - 1,
                n == 2 * (n / 2),
        ;
        assert(nu * (2 * lo) + (n - 2 * nu) * lo + (k + 1 - (n - nu)) * (2 * lo) == k * (2 * lo))
            by (nonlinear_arith)
            requires
                nu == n / 2 - 1,
                n == 2 * (n / 2),
        ;
    } else {
        assert((n - 1) * (2 * lo) == lo * (n + 2 * (n / 2 - 1))) by (nonlinear_arith)
            requires
                n == 2 * (n / 2),
        ;
    }
}

/// The arrival index dropped by one more pattern step sits at rank
/// `nu + 1`.
proof fn lemma_spaced_evicted(n: int, lo: int, nu: int)
    requires
        n >= 2,
        lo >= 1,
        0 <= nu,
        2 * nu + 1 < n,
    ensures
        spaced_rank_tag(n, lo, nu, nu + 1) == lo * (2 * nu + 1),
{
    assert(nu * (2 * lo) + (nu + 1 - nu) * lo == lo * (2 * nu + 1)) by (nonlinear_arith);
}

/// One step of [`lemma_direct_rank_tag_increasing`].
proof fn lemma_direct_rank_tag_step(n: nat, seen: nat, stored: nat, r: int)
    requires
        valid_capacity(n),
        seen >= n,
        0 <= r,
        r + 1 < n,
    ensures
        direct_rank_tag(n, seen, stored, r) < direct_rank_tag(n, seen, stored, r + 1),
{
    let l = log2(n);
    lemma_capacity_log(n);
    let lg = (bit_length(((seen - 1) as nat) / ((n - 1) as nat)) - 1) as nat;
    let lo = pow2(lg) as int;
    let up = 2 * lo;
    let nu = (stored % ((n / 2) as nat)) as int;
    lemma_pow2_pos(lg);
    lemma_pow2_pos((l - 1) as nat);
    lemma_pow2_unfold(l);
    lemma_div_multiples_vanish(pow2((l - 1) as nat) as int, 2);
    assert((n / 2) as nat == pow2((l - 1) as nat));
    lemma_mod_division_less_than_divisor(stored as int, (n / 2) as int);
    assert(2 * nu < n);
    if r + 1 < nu {
        assert((r + 1) * up == r * up + up) by (nonlinear_arith);
    } else if r + 1 == nu {
        assert(nu * up == r * up + up) by (nonlinear_arith)
            requires
                r + 1 == nu,
        ;
    } else if r + 1 < n - nu {
        assert((r + 1 - nu) * lo == (r - nu) * lo + lo) by (nonlinear_arith);
    } else if r + 1 == n - nu {
        assert((n - 2 * nu) * lo == (r - nu) * lo + lo) by (nonlinear_arith)
            requires
                r + 1 == n - nu,
        ;
    } else {
        assert((r + 1 - (n - nu)) * up == (r - (n - nu)) * up + up) by (nonlinear_arith);
    }
}

/// Once the buffer has cycled at least once, the direct-computation
/// view derives a strictly increasing arrival index for each
/// successive chronological rank: whatever it reads out is ordered by
/// the arrival position the formula assigns.
pub proof fn lemma_direct_rank_tag_increasing(n: nat, seen: nat, stored: nat, a: int, b: int)
    requires
        valid_capacity(n),
        seen >= n,
        0 <= a < b < n,
    ensures
        direct_rank_tag(n, seen, stored, a) < direct_rank_tag(n, seen, stored, b),
    decreases b - a,
{
    if b == a + 1 {
        lemma_direct_rank_tag_step(n, seen, stored, a);
    } else {
        lemma_direct_rank_tag_increasing(n, seen, stored, a, b - 1);
        lemma_direct_rank_tag_step(n, seen, stored, b - 1);
    }
}

/// What well-formedness guarantees of every reachable reservoir: the
/// stored count is exactly the number of observations the stateless
/// rule accepts, and never exceeds the observations seen; the divisor
/// is the power of two the halving schedule prescribes for the current
/// position in the stream; and the fill level is the smaller of the
/// stored count and the capacity.
pub proof fn lemma_reservoir_invariants<T, const N: usize>(r: &SamplingReservoir<T, N>)
    requires
        r.wf(),
    ensures
        valid_capacity(N as nat),
        r.stored_spec() == accepted_below(log2(N as nat), r.seen_spec()),
        r.stored_spec() <= r.seen_spec(),
        r.rate_spec().divisor_spec() == pow2(divisor_exponent(log2(N as nat), r.seen_spec())),
        r.arrival_tags().len() == r.contents().len(),
        r.contents().len() == if r.stored_spec() < N as nat {
            r.stored_spec()
        } else {
            N as nat
        },
{
    lemma_accepted_below_le(log2(N as nat), r.seen_spec());
}

/// Whatever the stream length, the buffer holds the smaller of the
/// number of observations seen and the capacity: feeding `L` values
/// into a fresh reservoir leaves `len() == min(L, N)`.
pub proof fn lemma_len_is_min_seen_capacity<T, const N: usize>(r: &SamplingReservoir<T, N>)
    requires
        r.wf(),
    ensures
        r.contents().len() == if r.seen_spec() < N as nat {
            r.seen_spec()
        } else {
            N as nat
        },
{
    let l = log2(N as nat);
    lemma_capacity_log(N as nat);
    lemma_retained_count(l, r.seen_spec());
    lemma_accepted_below_le(l, r.seen_spec());
}

/// What became of one observation handed to [`SamplingReservoir::sample`].
pub enum SamplingOutcome<T> {
    /// The value was stored.
    Consumed,
    /// The value was stored, and the sampling rate was reduced by the
    /// given factor before storing it.
    ConsumedAndRateReduced { factor: u32 },
    /// The value was rejected by the sampling rate and is handed back.
    Discarded(T),
}

/// A fixed-capacity down-sampling reservoir.  Feed values in with
/// [`sample`](Self::sample); read them back in arrival order with
/// [`ordered_iter`](Self::ordered_iter) or
/// [`into_ordered_iter`](Self::into_ordered_iter).
///
/// The capacity `N` must be a power of two greater than one.
#[derive(Clone)]
pub struct SamplingReservoir<T, const N: usize> {
    buf: Vec<T>,
    tags: Vec<usize>,
    sample_rate: SamplingRate,
    inner_index: usize,
    outer_index: usize,
}

impl<T, const N: usize> SamplingReservoir<T, N> {
    /// The stored values, in storage order.
    pub closed spec fn contents(&self) -> Seq<T> {
        self.buf@
    }

    /// The arrival index of each stored value, in storage order.
    pub closed spec fn arrival_tags(&self) -> Seq<usize> {
        self.tags@
    }

    /// Total number of observations presented so far.
    pub closed spec fn seen_spec(&self) -> nat {
        self.outer_index as nat
    }

    /// Total number of observations stored so far.
    pub closed spec fn stored_spec(&self) -> nat {
        self.inner_index as nat
    }

    /// The sampling-rate state.
    pub closed spec fn rate_spec(&self) -> SamplingRate {
        self.sample_rate
    }

    /// Well-formedness: the counters, the rate state and the buffer
    /// fill level are all determined by how many observations have been
    /// presented, and every stored value carries a distinct arrival
    /// index from the past.
    pub closed spec fn wf(&self) -> bool {
        let l = log2(N as nat);
        &&& valid_capacity(N as nat)
        &&& self.inner_index as nat == accepted_below(l, self.outer_index as nat)
        &&& self.outer_index as nat <= pow2(l) * 0x4000_0000
        &&& self.sample_rate.wf()
        &&& self.sample_rate.divisor_spec() == pow2(divisor_exponent(l, self.outer_index as nat))
        &&& self.sample_rate.counter_spec() == divisor_counter(l, self.outer_index as nat)
        &&& self.buf@.len() == self.tags@.len()
        &&& self.buf@.len() == if self.inner_index < N {
            self.inner_index as int
        } else {
            N as int
        }
        &&& forall|s: int|
            0 <= s < self.tags@.len() ==> (#[trigger] self.tags@[s]) < self.outer_index
        &&& forall|a: int, b: int|
            0 <= a < b < self.tags@.len() ==> #[trigger] self.tags@[a] != #[trigger] self.tags@[b]
        &&& self.view_tracked()
    }

    /// The stored arrival tags are exactly what the direct-computation
    /// view derives: during the fill each slot holds its own index;
    /// after it, the slot the formula assigns to the k-th chronological
    /// rank carries the formula's arrival index for that rank.
    pub closed spec fn view_tracked(&self) -> bool {
        let n = N as nat;
        if self.outer_index < N {
            forall|k: int| 0 <= k < self.tags@.len() ==> #[trigger] self.tags@[k] == k
        } else {
            forall|k: int|
                0 <= k < N ==> self.tags@[#[trigger] direct_rank_slot(
                    n,
                    self.outer_index as nat,
                    self.inner_index as nat,
                    k,
                ) as int] == direct_rank_tag(n, self.outer_index as nat, self.inner_index as nat, k)
        }
    }

    /// Creates an empty reservoir.
    pub fn new() -> (r: Self)
        requires
            valid_capacity(N as nat),
        ensures
            r.wf(),
            r.seen_spec() == 0,
            r.stored_spec() == 0,
            r.contents() == Seq::<T>::empty(),
            r.arrival_tags() == Seq::<usize>::empty(),
            r.rate_spec().divisor_spec() == 1,
    {
        proof {
            let l = log2(N as nat);
            lemma_capacity_log(N as nat);
            lemma2_to64();
            lemma_pow2_pos(l);
            assert(pow2(l) * 0x4000_0000 >= 0) by (nonlinear_arith);
            assert(accepted_below(l, 0) == 0);
        }
        Self {
            buf: Vec::new(),
            tags: Vec::new(),
            sample_rate: SamplingRate::new(1),
            inner_index: 0,
            outer_index: 0,
        }
    }

    /// Returns N, the capacity of the internal buffer.
    pub fn capacity(&self) -> (r: usize)
        ensures
            r == N,
    {
        N
    }

    /// The number of currently stored values: never more than `N`, and
    /// never decreasing.
    pub fn len(&self) -> (r: usize)
        ensures
            r == self.contents().len(),
    {
        self.buf.len()
    }

    /// Whether nothing has been stored yet.
    pub fn is_empty(&self) -> (r: bool)
        ensures
            r <==> self.contents().len() == 0,
    {
        self.len() == 0
    }

    /// Consumes the reservoir and returns the internal value buffer, in
    /// storage order.  To persist and later resume, read
    /// [`samples_seen`](Self::samples_seen),
    /// [`samples_stored`](Self::samples_stored) and
    /// [`sampling_rate`](Self::sampling_rate) first: together with the
    /// buffer they are the whole state.
    pub fn into_inner(self) -> (r: Vec<T>)
        ensures
            r@ == self.contents(),
    {
        self.buf
    }

    /// A view of the occupied part of the internal buffer, in storage
    /// order (not chronological).
    pub fn as_unordered_slice(&self) -> (r: &[T])
        ensures
            r@ == self.contents(),
    {
        self.buf.as_slice()
    }

    /// A reference to the current sampling rate.
    pub fn sampling_rate(&self) -> (r: &SamplingRate)
        ensures
            *r == self.rate_spec(),
    {
        &self.sample_rate
    }

    /// Total number of values written into the buffer since the
    /// beginning.
    pub fn samples_stored(&self) -> (r: usize)
        ensures
            r == self.stored_spec(),
    {
        self.inner_index
    }

    /// Total number of values observed by the sampler since the
    /// beginning.
    pub fn samples_seen(&self) -> (r: usize)
        ensures
            r == self.seen_spec(),
    {
        self.outer_index
    }

    /// Storage slot that the observation with the given global index
    /// overwrites, if accepted: slot 0 is written once, the others
    /// cycle with period `N - 1`.
    pub fn storage_index_for_outer_index(outer_index: usize) -> (r: usize)
        requires
            N >= 2,
        ensures
            r == storage_index(N as nat, outer_index as nat),
            r < N,
    {
        if outer_index == 0 {
            0
        } else {
            proof {
                lemma_mod_division_less_than_divisor((outer_index - 1) as int, (N - 1) as int);
            }
            ((outer_index - 1) % (N - 1)) + 1
        }
    }

    /// Observes a value and possibly stores it.
    ///
    /// Advances the global observation count, consults the rate, and if
    /// the value is accepted stores it at the slot the index sequence
    /// assigns, halving the sampling rate first whenever the stored
    /// count reaches the capacity or a further half-capacity boundary.
    /// A rejected value is handed back intact.  The acceptance decision is
    /// exactly the stateless rule [`Self::should_sample`].
    pub fn sample(&mut self, value: T) -> (r: SamplingOutcome<T>)
        requires
            old(self).wf(),
            old(self).seen_spec() < pow2(log2(N as nat)) * 0x4000_0000,
            old(self).seen_spec() < usize::MAX,
        ensures
            final(self).wf(),
            final(self).seen_spec() == old(self).seen_spec() + 1,
            final(self).rate_spec().divisor_spec() == pow2(
                divisor_exponent(log2(N as nat), old(self).seen_spec() + 1),
            ),
            ({
                let l = log2(N as nat);
                let i = old(self).seen_spec();
                if accepts(l, i) {
                    &&& final(self).stored_spec() == old(self).stored_spec() + 1
                    &&& final(self).contents() == if old(self).stored_spec() < N as nat {
                        old(self).contents().push(value)
                    } else {
                        old(self).contents().update(storage_index(N as nat, i) as int, value)
                    }
                    &&& final(self).arrival_tags() == if old(self).stored_spec() < N as nat {
                        old(self).arrival_tags().push(i as usize)
                    } else {
                        old(self).arrival_tags().update(
                            storage_index(N as nat, i) as int,
                            i as usize,
                        )
                    }
                    &&& r == if schedule_fires(l, accepted_below(l, i)) {
                        (SamplingOutcome::ConsumedAndRateReduced { factor: 2u32 })
                    } else {
                        SamplingOutcome::<T>::Consumed
                    }
                } else {
                    &&& r == SamplingOutcome::Discarded(value)
                    &&& final(self).stored_spec() == old(self).stored_spec()
                    &&& final(self).contents() == old(self).contents()
                    &&& final(self).arrival_tags() == old(self).arrival_tags()
                }
            }),
    {
        let ghost l = log2(N as nat);
        let ghost i = self.outer_index as nat;
        proof {
            lemma_capacity_log(N as nat);
            lemma_pow2_pos((l - 1) as nat);
            lemma_pow2_pos(l);
            lemma_accepted_below_le(l, i);
        }
        self.outer_index = self.outer_index + 1;
        let accepted = self.sample_rate.step();
        proof {
            if i == 0 {
                lemma2_to64();
                lemma_mod_self_0(1);
                assert(counter_bits(l, 0) == 0);
                assert(accepts(l, 0)) by {
                    assert(0int % 1 == 0) by (nonlinear_arith);
                }
                assert(accepted);
            } else {
                lemma_pow2_pos(counter_bits(l, (i - 1) as nat));
                lemma_mod_succ(i, pow2(counter_bits(l, (i - 1) as nat)));
                lemma_divisor_test_agrees(l, i);
                lemma_mod_division_less_than_divisor(i as int, pow2(
                    counter_bits(l, (i - 1) as nat),
                ) as int);
            }
            assert(accepted == accepts(l, i));
        }
        if !accepted {
            proof {
                lemma_reject_keeps_counter_bits(l, i);
                assert(accepted_below(l, i + 1) == accepted_below(l, i));
                if i < N as nat {
                    lemma_accepts_small(l, i);
                    assert(false);
                }
                lemma_reject_keeps_spacing(l, i);
                assert(view_spacing(N as nat, (i + 1) as nat) == view_spacing(N as nat, i));
                let n = N as nat;
                let stored0 = old(self).inner_index as nat;
                assert forall|k: int| 0 <= k < N implies self.tags@[#[trigger] direct_rank_slot(
                    n,
                    (i + 1) as nat,
                    stored0,
                    k,
                ) as int] == direct_rank_tag(n, (i + 1) as nat, stored0, k) by {
                    assert(direct_rank_tag(n, (i + 1) as nat, stored0, k) == direct_rank_tag(
                        n,
                        i,
                        stored0,
                        k,
                    ));
                    assert(old(self).tags@[direct_rank_slot(n, i, stored0, k) as int]
                        == direct_rank_tag(n, i, stored0, k));
                }
            }
            return SamplingOutcome::Discarded(value);
        }
        let mut result = SamplingOutcome::Consumed;
        proof {
            lemma_pow2_unfold(l);
            lemma_div_multiples_vanish(pow2((l - 1) as nat) as int, 2);
            assert((N / 2) as nat == pow2((l - 1) as nat));
        }
        if self.inner_index >= N && (self.inner_index - N) % (N / 2) == 0 {
            proof {
                lemma_fire_iff(l, i);
                assert(schedule_fires(l, accepted_below(l, i)));
                lemma_pow2_adds(l, 30);
                lemma2_to64();
                lemma_counter_bits_bound(l, (i - 1) as nat, 30);
                lemma_pow2_le(counter_bits(l, (i - 1) as nat), 30);
                lemma_pow2_unfold((counter_bits(l, i)) as nat);
            }
            self.sample_rate.div(2);
            result = SamplingOutcome::ConsumedAndRateReduced { factor: 2 };
        } else {
            proof {
                if i >= 1 {
                    lemma_fire_iff(l, i);
                }
                assert(!schedule_fires(l, accepted_below(l, i)));
            }
        }
        proof {
            // The new divisor matches the mask for observation i, and
            // the counter equals i modulo that divisor.
            if i >= 1 {
                lemma_fire_iff(l, i);
            }
            assert(self.sample_rate.divisor_spec() == pow2(counter_bits(l, i)));
            assert(i % pow2(counter_bits(l, i)) == 0);
        }
        self.inner_index = self.inner_index + 1;
        let tag = self.outer_index - 1;
        let insert_index = Self::storage_index_for_outer_index(tag);
        proof {
            if old(self).inner_index < N {
                // During the initial fill every observation is accepted,
                // so the write lands exactly at the fill level.
                lemma_retained_count(l, i);
                if i >= pow2(l) {
                    assert(false);
                }
                if i >= 1 {
                    lemma_small_mod((i - 1) as nat, (N - 1) as nat);
                }
                assert(storage_index(N as nat, i) == old(self).inner_index as nat);
            } else {
                lemma_retained_count(l, i);
                assert(storage_index(N as nat, i) >= 1);
            }
        }
        if insert_index == self.buf.len() {
            self.buf.push(value);
            self.tags.push(tag);
        } else {
            self.buf.set(insert_index, value);
            self.tags.set(insert_index, tag);
        }
        proof {
            assert(accepted_below(l, i + 1) == accepted_below(l, i) + 1);
            assert forall|s: int| 0 <= s < self.tags@.len() implies (#[trigger] self.tags@[s])
                < self.outer_index by {}
            assert forall|a: int, b: int| 0 <= a < b < self.tags@.len() implies #[trigger] self
                .tags@[a] != #[trigger] self.tags@[b] by {}
            let n = N as nat;
            let stored0 = old(self).inner_index as nat;
            if i + 1 < n {
                assert forall|k: int| 0 <= k < self.tags@.len() implies #[trigger] self.tags@[k]
                    == k by {}
            } else if i + 1 == n {
                lemma_accepted_below_small(l, n);
                assert forall|k: int| 0 <= k < N implies self.tags@[#[trigger] direct_rank_slot(
                    n,
                    n,
                    n,
                    k,
                ) as int] == direct_rank_tag(n, n, n, k) by {
                    lemma_view_at_fill_end(l, k);
                    assert(self.tags@[k] == k);
                }
            } else {
                lemma_accept_shape(l, i);
                let lo = view_spacing(n, i);
                let nu = (stored0 % ((n / 2) as nat)) as int;
                let evicted = lo * (2 * nu + 1);
                lemma_spaced_evicted(n as int, lo, nu);
                assert(direct_rank_tag(n, i, stored0, nu + 1) == evicted);
                assert(evicted >= 1) by (nonlinear_arith)
                    requires
                        evicted == lo * (2 * nu + 1),
                        lo >= 1,
                        nu >= 0,
                ;
                lemma_storage_index_shift(n, evicted as nat, lo as nat);
                assert(i as int == evicted + (n - 1) as int * lo) by (nonlinear_arith)
                    requires
                        i as int == lo * (n as int + 2 * nu),
                        evicted == lo * (2 * nu + 1),
                        n >= 2,
                ;
                assert((evicted as nat + (n - 1) * (lo as nat)) as nat == i) by (nonlinear_arith)
                    requires
                        i as int == evicted + (n - 1) as int * lo,
                        evicted >= 1,
                        lo >= 1,
                        n >= 2,
                ;
                assert(storage_index(n, i) == direct_rank_slot(n, i, stored0, nu + 1));
                // The slots the old view assigns to distinct ranks are
                // distinct, since they hold strictly increasing tags.
                assert forall|m1: int, m2: int| 0 <= m1 < m2 < n implies direct_rank_slot(
                    n,
                    i,
                    stored0,
                    m1,
                ) != direct_rank_slot(n, i, stored0, m2) by {
                    lemma_direct_rank_tag_increasing(n, i, stored0, m1, m2);
                    assert(old(self).tags@[direct_rank_slot(n, i, stored0, m1) as int]
                        == direct_rank_tag(n, i, stored0, m1));
                    assert(old(self).tags@[direct_rank_slot(n, i, stored0, m2) as int]
                        == direct_rank_tag(n, i, stored0, m2));
                }
                let seen1 = (i + 1) as nat;
                let stored1 = (stored0 + 1) as nat;
                assert(self.tags@ == old(self).tags@.update(storage_index(n, i) as int, i as usize));
                assert forall|k: int| 0 <= k < N implies self.tags@[#[trigger] direct_rank_slot(
                    n,
                    seen1,
                    stored1,
                    k,
                ) as int] == direct_rank_tag(n, seen1, stored1, k) by {
                    if 2 * nu + 2 < n {
                        lemma_spaced_shift(n as int, lo, nu, k);
                        assert(view_spacing(n, seen1) == lo);
                        assert((stored1 % ((n / 2) as nat)) as int == nu + 1);
                        if k <= nu {
                            assert(direct_rank_tag(n, seen1, stored1, k) == direct_rank_tag(
                                n,
                                i,
                                stored0,
                                k,
                            ));
                        } else if k < n - 1 {
                            assert(direct_rank_tag(n, seen1, stored1, k) == direct_rank_tag(
                                n,
                                i,
                                stored0,
                                k + 1,
                            ));
                        } else {
                            assert(direct_rank_tag(n, seen1, stored1, k) == i);
                        }
                    } else {
                        lemma_spaced_shift_roll(n as int, lo, k);
                        lemma_pow2_unfold(l);
                        assert(n as int % 2 == 0) by {
                            lemma_mod_multiples_basic(pow2((l - 1) as nat) as int, 2);
                            assert(pow2((l - 1) as nat) as int * 2 == n as int) by (nonlinear_arith)
                                requires
                                    n == 2 * pow2((l - 1) as nat),
                            ;
                        }
                        assert(nu == n as int / 2 - 1) by {
                            lemma_div_multiples_vanish(pow2((l - 1) as nat) as int, 2);
                        }
                        assert(view_spacing(n, seen1) == 2 * lo);
                        assert((stored1 % ((n / 2) as nat)) as int == 0);
                        if k <= nu {
                            assert(direct_rank_tag(n, seen1, stored1, k) == direct_rank_tag(
                                n,
                                i,
                                stored0,
                                k,
                            ));
                        } else if k < n - 1 {
                            assert(direct_rank_tag(n, seen1, stored1, k) == direct_rank_tag(
                                n,
                                i,
                                stored0,
                                k + 1,
                            ));
                        } else {
                            assert(direct_rank_tag(n, seen1, stored1, k) == i);
                        }
                    }
                    if k == n - 1 {
                        assert(direct_rank_slot(n, seen1, stored1, k) == storage_index(n, i));
                        assert(self.tags@[storage_index(n, i) as int] == i);
                    } else {
                        let m: int = if k <= nu {
                            k
                        } else {
                            k + 1
                        };
                        assert(direct_rank_tag(n, seen1, stored1, k) == direct_rank_tag(
                            n,
                            i,
                            stored0,
                            m,
                        ));
                        assert(direct_rank_slot(n, seen1, stored1, k) == direct_rank_slot(
                            n,
                            i,
                            stored0,
                            m,
                        ));
                        assert(m != nu + 1);
                        assert(direct_rank_slot(n, i, stored0, m) != direct_rank_slot(
                            n,
                            i,
                            stored0,
                            nu + 1,
                        ));
                        assert(self.tags@[direct_rank_slot(n, i, stored0, m) as int] == old(
                            self,
                        ).tags@[direct_rank_slot(n, i, stored0, m) as int]);
                    }
                }
            }
        }
        result
    }

    /// Consumes the reservoir and returns the stored values in
    /// chronological (arrival) order, by sorting the slots on their
    /// arrival tags.  This is irreversible.  By
    /// [`lemma_chronological_unique`] the result is the same sequence
    /// that [`ordered_iter`](Self::ordered_iter) computes.
    pub fn into_ordered_iter(self) -> (r: Vec<T>)
        requires
            self.wf(),
        ensures
            r@.len() == self.contents().len(),
            is_chronological(self.arrival_tags(), self.contents(), r@),
    {
        let SamplingReservoir { buf, tags, sample_rate: _, inner_index: _, outer_index: _ } = self;
        let ghost vals = buf@;
        let perm = sort_positions_by_tag(&tags);
        // Wrap every value in an option so each can be moved out once,
        // in permuted order.
        let mut buf = buf;
        let mut rev: Vec<T> = Vec::new();
        while buf.len() > 0
            invariant
                rev@.len() + buf@.len() == vals.len(),
                buf@ == vals.subrange(0, buf@.len() as int),
                forall|k: int|
                    0 <= k < rev@.len() ==> #[trigger] rev@[k] == vals[vals.len() - 1 - k],
            decreases buf@.len(),
        {
            let ghost old_buf = buf@;
            let v = buf.pop().unwrap();
            proof {
                assert(v == vals[buf@.len() as int]);
                assert(buf@ == vals.subrange(0, buf@.len() as int));
            }
            rev.push(v);
        }
        let mut rev = rev;
        let mut opts: Vec<Option<T>> = Vec::new();
        while rev.len() > 0
            invariant
                opts@.len() + rev@.len() == vals.len(),
                forall|k: int|
                    0 <= k < rev@.len() ==> #[trigger] rev@[k] == vals[vals.len() - 1 - k],
                forall|k: int| 0 <= k < opts@.len() ==> #[trigger] opts@[k] == Some(vals[k]),
            decreases rev@.len(),
        {
            let v = rev.pop().unwrap();
            opts.push(Some(v));
        }
        // Move the values out in chronological order.
        let mut out: Vec<T> = Vec::new();
        let mut k: usize = 0;
        while k < perm.len()
            invariant
                k <= perm@.len(),
                out@.len() == k,
                opts@.len() == vals.len(),
                perm@.len() == tags@.len(),
                tags@.len() == vals.len(),
                forall|r: int| 0 <= r < perm@.len() ==> (#[trigger] perm@[r]) < tags@.len(),
                forall|a: int, b: int|
                    0 <= a < b < perm@.len() ==> tags@[#[trigger] perm@[a] as int] < tags@[
                        #[trigger] perm@[b] as int
                    ],
                forall|j: int|
                    0 <= j < opts@.len() && (forall|r: int| 0 <= r < k ==> #[trigger] perm@[r] != j)
                        ==> #[trigger] opts@[j] == Some(vals[j]),
                forall|r: int| 0 <= r < k ==> #[trigger] out@[r] == vals[perm@[r] as int],
            decreases perm@.len() - k,
        {
            let idx = perm[k];
            proof {
                assert forall|r: int| 0 <= r < k implies #[trigger] perm@[r] != idx as int by {
                    assert(tags@[perm@[r] as int] < tags@[idx as int]);
                }
                assert(opts@[idx as int] == Some(vals[idx as int]));
            }
            let v_opt = opts[idx].take();
            let v = v_opt.unwrap();
            out.push(v);
            k = k + 1;
        }
        proof {
            let p = Seq::new(perm@.len(), |r: int| perm@[r] as int);
            assert(is_sorting_permutation(tags@, p));
            assert(forall|r: int| 0 <= r < p.len() ==> out@[r] == vals[#[trigger] p[r]]);
            assert(is_chronological(tags@, vals, out@));
        }
        out
    }

    /// Returns the stored values in chronological (arrival) order
    /// without consuming the reservoir, computing each rank's storage
    /// slot directly from the counters instead of sorting tags.  By
    /// [`lemma_chronological_unique`] the result is the same sequence
    /// that [`into_ordered_iter`](Self::into_ordered_iter) yields.
    pub fn ordered_iter(&self) -> (r: Vec<T>) where T: Copy
        requires
            self.wf(),
        ensures
            r@.len() == self.contents().len(),
            forall|k: int|
                0 <= k < r@.len() ==> #[trigger] r@[k] == self.contents()[direct_rank_slot(
                    N as nat,
                    self.seen_spec(),
                    self.stored_spec(),
                    k,
                ) as int],
            is_chronological(self.arrival_tags(), self.contents(), r@),
    {
        let ghost l = log2(N as nat);
        proof {
            lemma_capacity_log(N as nat);
            lemma_pow2_pos(l);
        }
        let len = self.buf.len();
        let mut out: Vec<T> = Vec::new();
        if self.outer_index < N {
            let mut k: usize = 0;
            while k < len
                invariant
                    k <= len,
                    out@.len() == k,
                    len == self.contents().len(),
                    self.seen_spec() < N as nat,
                    forall|r: int| 0 <= r < k ==> #[trigger] out@[r] == self.contents()[r],
                decreases len - k,
            {
                out.push(self.buf[k]);
                k = k + 1;
            }
            proof {
                let tags = self.arrival_tags();
                let p = Seq::new(out@.len(), |r: int| r);
                assert(is_sorting_permutation(tags, p));
                assert(forall|r: int| 0 <= r < p.len() ==> out@[r] == self.contents()[#[trigger] p[r]]);
                assert(is_chronological(tags, self.contents(), out@));
            }
            return out;
        }
        proof {
            lemma_retained_count(l, self.seen_spec());
            lemma_accepted_below_le(l, self.seen_spec());
        }
        let seen = self.outer_index;
        let stored = self.inner_index;
        let q = (seen - 1) / (N - 1);
        proof {
            assert(seen >= N);
            lemma_fundamental_div_mod((seen - 1) as int, (N - 1) as int);
            assert(q >= 1) by {
                lemma_div_is_ordered((N - 1) as int, (seen - 1) as int, (N - 1) as int);
                lemma_div_by_self((N - 1) as int);
            }
            lemma_bit_length_bounds(q as nat);
        }
        let bl = bit_length_exec(q);
        proof {
            lemma_pow2_pos((bl - 1) as nat);
            lemma_pow2_le((bl - 1) as nat, bl as nat);
        }
        let lo_us = pow2_exec(bl - 1);
        let lo: u128 = lo_us as u128;
        let up: u128 = 2 * lo;
        let nu_us = stored % (N / 2);
        let nu: u128 = nu_us as u128;
        let n128: u128 = N as u128;
        proof {
            lemma_mod_division_less_than_divisor(stored as int, (N / 2) as int);
            lemma_pow2_unfold(l);
            lemma_div_multiples_vanish(pow2((l - 1) as nat) as int, 2);
            assert((N / 2) as nat == pow2((l - 1) as nat));
            assert(2 * nu < n128);
            // Every candidate arrival tag is bounded by a small
            // multiple of the stream length, so the fixed-width
            // arithmetic below cannot wrap.
            assert(q as int * (N - 1) as int <= (seen - 1) as int) by (nonlinear_arith)
                requires
                    (seen - 1) as int == (N - 1) as int * (q as int) + ((seen - 1) as int % (
                    N - 1) as int),
                    (seen - 1) as int % (N - 1) as int >= 0,
            ;
            assert(lo as int * (n128 as int) <= 2 * (seen as int)) by (nonlinear_arith)
                requires
                    lo as int <= q as int,
                    q as int * (N - 1) as int <= (seen - 1) as int,
                    n128 as int == N as int,
                    N >= 2,
                    q >= 1,
                    lo >= 1,
            ;
        }
        let ghost bound: int = 2 * (seen as int);
        let mut k: usize = 0;
        while k < len
            invariant
                k <= len,
                out@.len() == k,
                len == self.contents().len(),
                len == N,
                self.seen_spec() >= N as nat,
                seen == self.seen_spec(),
                stored == self.stored_spec(),
                N >= 2,
                seen <= usize::MAX,
                lo as int == pow2(
                    (bit_length(((seen - 1) as nat) / ((N - 1) as nat)) - 1) as nat,
                ) as int,
                up == 2 * lo,
                nu as int == stored as int % ((N / 2) as int),
                2 * nu < n128,
                n128 == N as u128,
                lo >= 1,
                lo as int * (n128 as int) <= bound,
                bound == 2 * (seen as int),
                forall|r: int|
                    0 <= r < k ==> #[trigger] out@[r] == self.contents()[direct_rank_slot(
                        N as nat,
                        self.seen_spec(),
                        self.stored_spec(),
                        r,
                    ) as int],
            decreases len - k,
        {
            let k128 = k as u128;
            proof {
                assert(k128 < n128);
                assert(k128 as int * up as int <= 2 * bound && nu as int * up as int <= 2 * bound
                    && (n128 as int) * (lo as int) <= bound) by (nonlinear_arith)
                    requires
                        lo as int * (n128 as int) <= bound,
                        up == 2 * lo,
                        (k128 as int) < n128 as int,
                        2 * (nu as int) < n128 as int,
                        lo >= 1,
                        nu >= 0,
                        k128 >= 0,
                        bound >= 0,
                        n128 >= 2,
                ;
            }
            let tag: u128 = if k128 < nu {
                proof {
                    assert(k128 as int * up as int <= 2 * bound) by (nonlinear_arith)
                        requires
                            k128 as int * up as int <= 2 * bound,
                    ;
                }
                k128 * up
            } else if k128 < n128 - nu {
                proof {
                    assert((k128 - nu) as int * lo as int <= bound) by (nonlinear_arith)
                        requires
                            (n128 as int) * (lo as int) <= bound,
                            k128 as int - nu as int <= n128 as int,
                            lo >= 1,
                            k128 as int >= nu as int,
                    ;
                }
                nu * up + (k128 - nu) * lo
            } else {
                proof {
                    assert((n128 - 2 * nu) as int * lo as int <= bound && (k128 - (n128
                        - nu)) as int * up as int <= 2 * bound) by (nonlinear_arith)
                        requires
                            (n128 as int) * (lo as int) <= bound,
                            lo as int * (n128 as int) <= bound,
                            up == 2 * lo,
                            k128 as int >= n128 as int - nu as int,
                            (k128 as int) < n128 as int,
                            2 * (nu as int) < n128 as int,
                            lo >= 1,
                            nu >= 0,
                            bound >= 0,
                ;
                }
                nu * up + (n128 - 2 * nu) * lo + (k128 - (n128 - nu)) * up
            };
            let idx128: u128 = if tag == 0 {
                0
            } else {
                proof {
                    lemma_mod_division_less_than_divisor((tag - 1) as int, (n128 - 1) as int);
                }
                ((tag - 1) % (n128 - 1)) + 1
            };
            proof {
                assert(tag as int == direct_rank_tag(N as nat, seen as nat, stored as nat, k as int));
                assert(idx128 as nat == direct_rank_slot(N as nat, seen as nat, stored as nat, k as int));
                assert(idx128 < n128);
            }
            let idx = idx128 as usize;
            out.push(self.buf[idx]);
            k = k + 1;
        }
        proof {
            let n = N as nat;
            let tags = self.arrival_tags();
            let p = Seq::new(
                out@.len(),
                |r: int| direct_rank_slot(n, seen as nat, stored as nat, r) as int,
            );
            assert forall|a: int, b: int| 0 <= a < b < p.len() implies tags[#[trigger] p[a]]
                < tags[#[trigger] p[b]] by {
                lemma_direct_rank_tag_increasing(n, seen as nat, stored as nat, a, b);
                assert(tags[direct_rank_slot(n, seen as nat, stored as nat, a) as int]
                    == direct_rank_tag(n, seen as nat, stored as nat, a));
                assert(tags[direct_rank_slot(n, seen as nat, stored as nat, b) as int]
                    == direct_rank_tag(n, seen as nat, stored as nat, b));
            }
            assert forall|r: int| 0 <= r < p.len() implies 0 <= #[trigger] p[r] < tags.len() by {
                let t = direct_rank_tag(n, seen as nat, stored as nat, r);
                if t as nat > 0 {
                    lemma_mod_division_less_than_divisor((t as nat - 1) as int, (n - 1) as int);
                }
            }
            assert(is_sorting_permutation(tags, p));
            assert(forall|r: int|
                0 <= r < p.len() ==> out@[r] == self.contents()[#[trigger] p[r]]);
            assert(is_chronological(tags, self.contents(), out@));
        }
        out
    }

    /// The stateless form of the acceptance rule: accepts the
    /// observation with the given global index iff its low
    /// `bit_length - log2(N)` bits are zero.
    pub fn should_sample(outer_index: usize) -> (r: bool)
        requires
            valid_capacity(N as nat),
        ensures
            r == accepts(log2(N as nat), outer_index as nat),
    {
        let ghost lg = log2(N as nat);
        proof {
            lemma_capacity_log(N as nat);
        }
        let b = bit_length_exec(outer_index);
        let l = log2_exec(N);
        let cb = if b > l {
            b - l
        } else {
            0
        };
        proof {
            lemma2_to64();
            if cb > 0 {
                lemma_bit_length_bounds(outer_index as nat);
                lemma_pow2_le((cb as nat), (b - 1) as nat);
            }
            assert(pow2(cb as nat) <= usize::MAX);
            lemma_pow2_pos(cb as nat);
        }
        let p = pow2_exec(cb);
        outer_index % p == 0
    }
}

} // verus!
