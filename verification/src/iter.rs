//! The slot-index generator: for the m-th accepted observation it
//! yields the storage slot to overwrite.  The first `N` accepted values
//! fill the buffer left to right; after that the indices repeat in a
//! cycle of `log2(N)` patterns, each pattern overwriting `N/2` slots in
//! progressively narrower, wider-spaced groups.
//!
//! Both a closed form ([`slot_at`]) and a stateful O(1)-per-step
//! generator ([`InfinitySamplerIndexer`]) are provided; the generator is
//! proved to produce exactly the closed form at every step, and it can
//! be reversed ([`ReverseInfinitySamplerIndexer`]) to walk the same
//! sequence backwards down to position 0.

use crate::math::lemma_capacity_log;
use crate::math::lemma_mod_succ;
use crate::math::lemma_pow2_le;
use crate::math::log2;
use crate::math::log2_exec;
use crate::math::pow2_exec;
use crate::math::valid_capacity;
use vstd::arithmetic::div_mod::*;
use vstd::arithmetic::power2::*;
use vstd::prelude::*;

verus! {

/// Length of the repeating part of the index sequence: `log2(N)`
/// patterns of `N/2` steps each.
pub open spec fn cycle_length(l: nat) -> nat {
    l * pow2((l - 1) as nat)
}

/// Position within the repeating part once `m` indices have been
/// produced (zero throughout the initial fill).
pub open spec fn cycle_index(l: nat, m: nat) -> nat {
    if m < pow2(l) {
        0
    } else {
        ((m - pow2(l)) as nat) % cycle_length(l)
    }
}

/// Which pattern the cycle position `j` falls in.
pub open spec fn pattern_exponent(l: nat, j: nat) -> nat {
    j / pow2((l - 1) as nat)
}

/// First slot of the current pattern; also the number of its groups.
pub open spec fn pattern_base(l: nat, j: nat) -> nat {
    pow2(pattern_exponent(l, j))
}

/// Distance between consecutive slots of one group.
pub open spec fn pattern_step(l: nat, j: nat) -> nat {
    pow2((pattern_exponent(l, j) + 1) as nat)
}

/// Number of slots in each group of the current pattern.
pub open spec fn group_size(l: nat, j: nat) -> nat {
    pow2((l - 1 - pattern_exponent(l, j)) as nat)
}

/// Which group of the current pattern `j` falls in.
pub open spec fn group_number(l: nat, j: nat) -> nat {
    (j % pow2((l - 1) as nat)) / group_size(l, j)
}

/// Position within the current group.
pub open spec fn group_offset(l: nat, j: nat) -> nat {
    j % group_size(l, j)
}

/// The slot overwritten at cycle position `j`: the pattern starts at
/// `pattern_base + group_number` and walks in strides of
/// `pattern_step`.
pub open spec fn cyclic_slot(l: nat, j: nat) -> nat {
    pattern_base(l, j) + group_number(l, j) + group_offset(l, j) * pattern_step(l, j)
}

/// Closed form for the slot overwritten by the m-th accepted
/// observation (counting from 0), for a buffer of capacity `2^l`.
pub open spec fn slot_at(l: nat, m: nat) -> nat {
    if m < pow2(l) {
        m
    } else {
        cyclic_slot(l, cycle_index(l, m))
    }
}

/// The decomposition of a cycle position is unique: exhibiting pattern,
/// group and offset determines the spec components.
proof fn lemma_state_of(l: nat, j: nat, exp: nat, g: nat, off: nat)
    requires
        l >= 1,
        exp < l,
        g < pow2(exp),
        off < pow2((l - 1 - exp) as nat),
        j == exp * pow2((l - 1) as nat) + g * pow2((l - 1 - exp) as nat) + off,
    ensures
        pattern_exponent(l, j) == exp,
        group_number(l, j) == g,
        group_offset(l, j) == off,
    decreases l,
{
    let half = pow2((l - 1) as nat);
    let gs = pow2((l - 1 - exp) as nat);
    let base = pow2(exp);
    lemma_pow2_pos((l - 1) as nat);
    lemma_pow2_pos((l - 1 - exp) as nat);
    lemma_pow2_pos(exp);
    lemma_pow2_adds(exp, (l - 1 - exp) as nat);
    let r = (g * gs + off) as int;
    assert(r < half) by (nonlinear_arith)
        requires
            r == g as int * gs as int + off as int,
            g as int <= base as int - 1,
            (off as int) < gs as int,
            base * gs == half,
            gs >= 1,
            g >= 0,
            off >= 0,
    ;
    lemma_fundamental_div_mod_converse(j as int, half as int, exp as int, r);
    assert(pattern_exponent(l, j) == exp);
    lemma_fundamental_div_mod_converse(r, gs as int, g as int, off as int);
    assert(group_number(l, j) == g);
    assert(j as int == (exp * base + g) as int * gs as int + off as int) by (nonlinear_arith)
        requires
            j == exp * half + g * gs + off,
            base * gs == half,
    ;
    lemma_fundamental_div_mod_converse(j as int, gs as int, (exp * base + g) as int, off as int);
    assert(group_offset(l, j) == off);
}

/// Everything the stepping proofs need to know about the components of
/// a cycle position.
proof fn lemma_cycle_parts(l: nat, j: nat)
    requires
        l >= 1,
        j < cycle_length(l),
    ensures
        pattern_exponent(l, j) < l,
        group_number(l, j) < pattern_base(l, j),
        group_offset(l, j) < group_size(l, j),
        j == pattern_exponent(l, j) * pow2((l - 1) as nat) + group_number(l, j) * group_size(l, j)
            + group_offset(l, j),
        pattern_base(l, j) * group_size(l, j) == pow2((l - 1) as nat),
        pattern_step(l, j) == 2 * pattern_base(l, j),
        pattern_step(l, j) * group_size(l, j) == pow2(l),
        pattern_base(l, j) >= 1,
        group_size(l, j) >= 1,
        cyclic_slot(l, j) < pow2(l),
        cyclic_slot(l, j) == pow2(l) - 1 <==> (group_number(l, j) == pattern_base(l, j) - 1
            && group_offset(l, j) == group_size(l, j) - 1),
        cyclic_slot(l, j) + pattern_step(l, j) >= pow2(l) <==> group_offset(l, j) == group_size(
            l,
            j,
        ) - 1,
        pattern_base(l, j) + group_number(l, j) == pow2(l) - 1 <==> (pattern_exponent(l, j) == l
            - 1 && group_number(l, j) == pattern_base(l, j) - 1),
{
    let half = pow2((l - 1) as nat);
    let exp = pattern_exponent(l, j);
    lemma_pow2_pos((l - 1) as nat);
    lemma_fundamental_div_mod(j as int, half as int);
    assert(exp < l) by (nonlinear_arith)
        requires
            j as int == half as int * exp as int + (j as int % half as int),
            0 <= j as int % half as int,
            j < l * half,
            half >= 1,
            exp >= 0,
    ;
    let gs = group_size(l, j);
    let base = pattern_base(l, j);
    let step = pattern_step(l, j);
    lemma_pow2_pos((l - 1 - exp) as nat);
    lemma_pow2_pos(exp);
    lemma_pow2_adds(exp, (l - 1 - exp) as nat);
    assert(base * gs == half);
    lemma_pow2_unfold((exp + 1) as nat);
    assert(step == 2 * base);
    lemma_pow2_unfold(l);
    assert(step * gs == pow2(l)) by (nonlinear_arith)
        requires
            step == 2 * base,
            base * gs == half,
            pow2(l) == 2 * half,
    ;
    let rem = j % half;
    let g = group_number(l, j);
    let off = group_offset(l, j);
    // j % gs == (j % half) % gs, since gs divides half
    lemma_mod_mod(j as int, gs as int, base as int);
    assert(gs as int * base as int == half as int) by (nonlinear_arith)
        requires
            base * gs == half,
    ;
    lemma_fundamental_div_mod(rem as int, gs as int);
    assert(off == rem % gs);
    assert(g == rem / gs);
    lemma_mod_division_less_than_divisor(j as int, half as int);
    lemma_mod_division_less_than_divisor(rem as int, gs as int);
    assert(g < base) by (nonlinear_arith)
        requires
            rem as int == gs as int * g as int + off as int,
            off >= 0,
            rem < half,
            base * gs == half,
            gs >= 1,
            g >= 0,
    ;
    assert(j == exp * half + g * gs + off) by (nonlinear_arith)
        requires
            j as int == half as int * exp as int + rem as int,
            rem as int == gs as int * g as int + off as int,
    ;
    // Range of the produced slot, and the branch characterizations.
    let slot = cyclic_slot(l, j);
    assert(slot + step <= pow2(l) + base + g) by (nonlinear_arith)
        requires
            slot == base + g + off * step,
            off as int <= gs as int - 1,
            step * gs == pow2(l),
            step >= 1,
            g >= 0,
            base >= 1,
    ;
    assert(off as int <= gs as int - 2 ==> slot as int + step as int <= pow2(l) as int - 1)
        by (nonlinear_arith)
        requires
            slot == base + g + off * step,
            g as int <= base as int - 1,
            step == 2 * base,
            step * gs == pow2(l),
            step >= 1,
            base >= 1,
    ;
    assert(off as int == gs as int - 1 ==> slot as int == pow2(l) as int - base as int + g as int)
        by (nonlinear_arith)
        requires
            slot == base + g + off * step,
            step == 2 * base,
            step * gs == pow2(l),
    ;
    assert(slot < pow2(l)) by (nonlinear_arith)
        requires
            slot == base + g + off * step,
            g as int <= base as int - 1,
            off as int <= gs as int - 1,
            step == 2 * base,
            step * gs == pow2(l),
            base >= 1,
    ;
    if exp < l - 1 {
        lemma_pow2_strictly_increases(exp, (l - 1) as nat);
    }
    if exp == l - 1 {
        assert(base == half);
    }
    assert(base <= half) by {
        if exp < l - 1 {
        } else {
        }
    }
    assert(base + g == pow2(l) - 1 <==> (exp == l - 1 && g == base - 1)) by (nonlinear_arith)
        requires
            g as int <= base as int - 1,
            base <= half,
            pow2(l) == 2 * half,
            exp == l - 1 ==> base == half,
            base == half ==> exp == l - 1,
            base >= 1,
    ;
}

/// The cycle has at least one position.
proof fn lemma_cycle_length_pos(l: nat)
    requires
        l >= 1,
    ensures
        cycle_length(l) >= 1,
{
    lemma_pow2_pos((l - 1) as nat);
    assert(l * pow2((l - 1) as nat) >= 1) by (nonlinear_arith)
        requires
            l >= 1,
            pow2((l - 1) as nat) >= 1,
    ;
}

/// The state at the start of the cycle.
proof fn lemma_state_zero(l: nat)
    requires
        l >= 1,
    ensures
        pattern_exponent(l, 0) == 0,
        group_number(l, 0) == 0,
        group_offset(l, 0) == 0,
        pattern_base(l, 0) == 1,
        pattern_step(l, 0) == 2,
        cyclic_slot(l, 0) == 1,
{
    lemma2_to64();
    lemma_pow2_pos((l - 1) as nat);
    lemma_state_of(l, 0, 0, 0, 0);
}

/// The state at the last position of the cycle.
proof fn lemma_state_last(l: nat)
    requires
        l >= 1,
    ensures
        pattern_exponent(l, (cycle_length(l) - 1) as nat) == (l - 1) as nat,
        group_number(l, (cycle_length(l) - 1) as nat) == pow2((l - 1) as nat) - 1,
        group_offset(l, (cycle_length(l) - 1) as nat) == 0,
        pattern_step(l, (cycle_length(l) - 1) as nat) == pow2(l),
        cyclic_slot(l, (cycle_length(l) - 1) as nat) == pow2(l) - 1,
{
    let half = pow2((l - 1) as nat);
    lemma_cycle_length_pos(l);
    lemma_pow2_pos(half);
    lemma_pow2_pos((l - 1) as nat);
    lemma2_to64();
    assert((cycle_length(l) - 1) as int == (l - 1) as int * half as int + (half - 1) as int * 1
        + 0) by (nonlinear_arith)
        requires
            cycle_length(l) == l * half,
            l >= 1,
            half >= 1,
    ;
    lemma_state_of(l, (cycle_length(l) - 1) as nat, (l - 1) as nat, (half - 1) as nat, 0);
    lemma_pow2_unfold(l);
}

/// Only the start of the cycle writes slot 1.
proof fn lemma_slot_one(l: nat, j: nat)
    requires
        l >= 1,
        j < cycle_length(l),
    ensures
        cyclic_slot(l, j) == 1 <==> j == 0,
{
    lemma_cycle_parts(l, j);
    lemma_state_zero(l);
    let exp = pattern_exponent(l, j);
    let base = pattern_base(l, j);
    let g = group_number(l, j);
    let off = group_offset(l, j);
    let step = pattern_step(l, j);
    if cyclic_slot(l, j) == 1 {
        if exp >= 1 {
            lemma_pow2_strictly_increases(0, exp);
            assert(base >= 2);
            assert(off * step >= 0) by (nonlinear_arith);
            assert(false);
        }
        assert(base == 1);
        assert(off * step == 0 && g == 0) by (nonlinear_arith)
            requires
                1 + g + off * step == 1,
                g >= 0,
                off >= 0,
                step >= 0,
        ;
        assert(off == 0) by (nonlinear_arith)
            requires
                off * step == 0,
                step >= 2,
                off >= 0,
        ;
        assert(j == 0) by (nonlinear_arith)
            requires
                j == exp * pow2((l - 1) as nat) + g * group_size(l, j) + off,
                exp == 0,
                g == 0,
                off == 0,
        ;
    }
}

/// Stepping forward at the end of a pattern that is not the last:
/// the next position opens the following pattern.
proof fn lemma_step_next_pattern(l: nat, j: nat)
    requires
        l >= 1,
        j < cycle_length(l),
        group_offset(l, j) == group_size(l, j) - 1,
        group_number(l, j) == pattern_base(l, j) - 1,
        pattern_exponent(l, j) < l - 1,
    ensures
        j + 1 < cycle_length(l),
        pattern_exponent(l, j + 1) == pattern_exponent(l, j) + 1,
        group_number(l, j + 1) == 0,
        group_offset(l, j + 1) == 0,
{
    lemma_cycle_parts(l, j);
    let half = pow2((l - 1) as nat);
    let exp = pattern_exponent(l, j);
    let base = pattern_base(l, j);
    let gs = group_size(l, j);
    lemma_pow2_pos(((l - 1) - (exp + 1)) as nat);
    lemma_pow2_pos((exp + 1) as nat);
    assert(j + 1 == (exp + 1) * half) by (nonlinear_arith)
        requires
            j == exp * half + (base - 1) * gs + (gs - 1),
            base * gs == half,
            gs >= 1,
    ;
    assert((exp + 1) * half + 0 * pow2(((l - 1) - (exp + 1)) as nat) + 0 == (exp + 1) * half)
        by (nonlinear_arith);
    lemma_state_of(l, j + 1, (exp + 1) as nat, 0, 0);
    assert(j + 1 < cycle_length(l)) by (nonlinear_arith)
        requires
            j + 1 == (exp + 1) * half,
            exp + 1 < l,
            half >= 1,
            cycle_length(l) == l * half,
    ;
}

/// Stepping forward at the end of a group that does not end its
/// pattern: the next position opens the following group.
proof fn lemma_step_next_group(l: nat, j: nat)
    requires
        l >= 1,
        j < cycle_length(l),
        group_offset(l, j) == group_size(l, j) - 1,
        group_number(l, j) < pattern_base(l, j) - 1,
    ensures
        j + 1 < cycle_length(l),
        pattern_exponent(l, j + 1) == pattern_exponent(l, j),
        group_number(l, j + 1) == group_number(l, j) + 1,
        group_offset(l, j + 1) == 0,
{
    lemma_cycle_parts(l, j);
    let half = pow2((l - 1) as nat);
    let exp = pattern_exponent(l, j);
    let base = pattern_base(l, j);
    let gs = group_size(l, j);
    let g = group_number(l, j);
    assert(j + 1 == exp * half + (g + 1) * gs + 0) by (nonlinear_arith)
        requires
            j == exp * half + g * gs + (gs - 1),
            gs >= 1,
    ;
    lemma_state_of(l, j + 1, exp, (g + 1) as nat, 0);
    assert(j + 1 < cycle_length(l)) by (nonlinear_arith)
        requires
            j + 1 == exp * half + (g + 1) * gs + 0,
            g + 1 <= base - 1,
            base * gs == half,
            exp + 1 <= l,
            gs >= 1,
            half >= 1,
            cycle_length(l) == l * half,
    ;
}

/// Stepping forward inside a group.
proof fn lemma_step_in_group(l: nat, j: nat)
    requires
        l >= 1,
        j < cycle_length(l),
        group_offset(l, j) < group_size(l, j) - 1,
    ensures
        j + 1 < cycle_length(l),
        pattern_exponent(l, j + 1) == pattern_exponent(l, j),
        group_number(l, j + 1) == group_number(l, j),
        group_offset(l, j + 1) == group_offset(l, j) + 1,
{
    lemma_cycle_parts(l, j);
    let half = pow2((l - 1) as nat);
    let exp = pattern_exponent(l, j);
    let base = pattern_base(l, j);
    let gs = group_size(l, j);
    let g = group_number(l, j);
    let off = group_offset(l, j);
    lemma_state_of(l, j + 1, exp, g, (off + 1) as nat);
    assert(j + 1 < cycle_length(l)) by (nonlinear_arith)
        requires
            j + 1 == exp * half + g * gs + off + 1,
            off + 1 <= gs - 1,
            g <= base - 1,
            base * gs == half,
            exp + 1 <= l,
            gs >= 1,
            half >= 1,
            cycle_length(l) == l * half,
    ;
}

/// Stepping backward across a pattern boundary: the previous position
/// closes the previous pattern.
proof fn lemma_back_prev_pattern(l: nat, j: nat)
    requires
        l >= 1,
        1 <= j < cycle_length(l),
        group_offset(l, j) == 0,
        group_number(l, j) == 0,
    ensures
        pattern_exponent(l, j) >= 1,
        pattern_exponent(l, (j - 1) as nat) == pattern_exponent(l, j) - 1,
        group_number(l, (j - 1) as nat) == pattern_base(l, (j - 1) as nat) - 1,
        group_offset(l, (j - 1) as nat) == group_size(l, (j - 1) as nat) - 1,
{
    lemma_cycle_parts(l, j);
    let half = pow2((l - 1) as nat);
    let exp = pattern_exponent(l, j);
    assert(j == exp * half);
    if exp == 0 {
        assert(false);
    }
    let pb = pow2((exp - 1) as nat);
    let pgs = pow2((l - exp) as nat);
    lemma_pow2_pos((exp - 1) as nat);
    lemma_pow2_pos((l - exp) as nat);
    lemma_pow2_adds((exp - 1) as nat, (l - exp) as nat);
    assert((j - 1) as int == (exp - 1) as int * half as int + (pb - 1) as int * pgs as int + (pgs
        - 1) as int) by (nonlinear_arith)
        requires
            j == exp * half,
            pb * pgs == half,
            exp >= 1,
            pgs >= 1,
            half >= 1,
    ;
    lemma_state_of(l, (j - 1) as nat, (exp - 1) as nat, (pb - 1) as nat, (pgs - 1) as nat);
}

/// Stepping backward across a group boundary inside a pattern.
proof fn lemma_back_prev_group(l: nat, j: nat)
    requires
        l >= 1,
        1 <= j < cycle_length(l),
        group_offset(l, j) == 0,
        group_number(l, j) >= 1,
    ensures
        pattern_exponent(l, (j - 1) as nat) == pattern_exponent(l, j),
        group_number(l, (j - 1) as nat) == group_number(l, j) - 1,
        group_offset(l, (j - 1) as nat) == group_size(l, (j - 1) as nat) - 1,
        group_size(l, (j - 1) as nat) == group_size(l, j),
{
    lemma_cycle_parts(l, j);
    let half = pow2((l - 1) as nat);
    let exp = pattern_exponent(l, j);
    let gs = group_size(l, j);
    let g = group_number(l, j);
    assert((j - 1) as int == exp as int * half as int + (g - 1) as int * gs as int + (gs
        - 1) as int) by (nonlinear_arith)
        requires
            j == exp * half + g * gs,
            g >= 1,
            gs >= 1,
    ;
    lemma_state_of(l, (j - 1) as nat, exp, (g - 1) as nat, (gs - 1) as nat);
}

/// Stateful generator of the insertion-index sequence.  Starting from
/// position 0 it yields `slot_at(log2(N), m)` at every position `m`:
/// first `0 ..= N-1`, then the repeating patterns.  Its size does not
/// depend on `N`.
#[derive(Clone)]
pub struct InfinitySamplerIndexer<const N: usize> {
    iterator_pos: usize,
    idx: usize,
    left_offset: usize,
    step: usize,
}

/// [`InfinitySamplerIndexer`], but walking the same sequence backwards;
/// it is exhausted after yielding the index of position 0.
#[derive(Clone)]
pub struct ReverseInfinitySamplerIndexer<const N: usize> {
    iterator_pos: usize,
    idx: usize,
    left_offset: usize,
    step: usize,
}

impl<const N: usize> InfinitySamplerIndexer<N> {
    /// Number of indices produced so far.
    pub closed spec fn position_spec(&self) -> nat {
        self.iterator_pos as nat
    }

    /// The capacity is valid and the cyclic state is exactly what the
    /// closed form assigns to the current position.
    pub closed spec fn wf(&self) -> bool {
        let l = log2(N as nat);
        let j = cycle_index(l, self.iterator_pos as nat);
        &&& valid_capacity(N as nat)
        &&& self.idx == cyclic_slot(l, j)
        &&& self.left_offset == pattern_base(l, j) + group_number(l, j)
        &&& self.step == pattern_step(l, j)
    }

    /// The same state, as a backward generator.
    pub closed spec fn reversed_spec(&self) -> ReverseInfinitySamplerIndexer<N> {
        ReverseInfinitySamplerIndexer {
            iterator_pos: self.iterator_pos,
            idx: self.idx,
            left_offset: self.left_offset,
            step: self.step,
        }
    }

    /// Creates a new generator for a buffer of size N, starting at
    /// position 0.
    pub fn new() -> (r: Self)
        requires
            valid_capacity(N as nat),
        ensures
            r.wf(),
            r.position_spec() == 0,
    {
        proof {
            let l = log2(N as nat);
            lemma_capacity_log(N as nat);
            lemma_pow2_pos(l);
            lemma_state_zero(l);
        }
        Self { iterator_pos: 0, idx: 1, left_offset: 1, step: 2 }
    }

    /// The current position of the generator in terms of total index
    /// count.  Increases monotonically.
    pub fn position(&self) -> (r: usize)
        ensures
            r == self.position_spec(),
    {
        self.iterator_pos
    }

    /// Turns this generator around: an exact state transfer, at the
    /// same position.  The next index yielded by the reversed
    /// generator is the one this generator produced last.
    pub fn reverse(self) -> (r: ReverseInfinitySamplerIndexer<N>)
        ensures
            r == self.reversed_spec(),
            r.position_spec() == self.position_spec(),
            self.wf() ==> r.wf(),
    {
        ReverseInfinitySamplerIndexer {
            iterator_pos: self.iterator_pos,
            idx: self.idx,
            left_offset: self.left_offset,
            step: self.step,
        }
    }

    /// Produces the insertion index for the current position and
    /// advances by one.
    #[verifier::rlimit(60)]
    #[verifier::spinoff_prover]
    pub fn next(&mut self) -> (r: Option<usize>)
        requires
            old(self).wf(),
            old(self).position_spec() < usize::MAX,
        ensures
            final(self).wf(),
            final(self).position_spec() == old(self).position_spec() + 1,
            r matches Some(s) && s as nat == slot_at(log2(N as nat), old(self).position_spec()),
    {
        let ghost l = log2(N as nat);
        let ghost m = old(self).iterator_pos as nat;
        let ghost j = cycle_index(l, m);
        proof {
            lemma_capacity_log(N as nat);
            lemma_pow2_pos((l - 1) as nat);
            lemma_cycle_length_pos(l);
        }
        let pos = self.iterator_pos;
        self.iterator_pos = pos + 1;
        if pos < N {
            proof {
                if m + 1 >= N as nat {
                    lemma_small_mod(0, cycle_length(l));
                }
            }
            return Some(pos);
        }
        proof {
            lemma_mod_division_less_than_divisor((m - N as nat) as int, cycle_length(l) as int);
            lemma_cycle_parts(l, j);
            lemma_mod_succ((m + 1 - N as nat) as nat, cycle_length(l));
            assert(self.step <= N) by (nonlinear_arith)
                requires
                    pattern_step(l, j) * group_size(l, j) == pow2(l),
                    self.step == pattern_step(l, j),
                    group_size(l, j) >= 1,
                    self.step >= 0,
                    N as nat == pow2(l),
            ;
        }
        let ghost exp = pattern_exponent(l, j);
        let ghost base = pattern_base(l, j);
        let ghost gs = group_size(l, j);
        let ghost g = group_number(l, j);
        let ghost off = group_offset(l, j);
        let result = self.idx;
        if self.idx == N - 1 {
            if self.left_offset == N - 1 {
                proof {
                    assert(exp == l - 1 && g == base - 1 && off == gs - 1);
                    lemma2_to64();
                    assert(gs == 1);
                    assert(j == cycle_length(l) - 1) by (nonlinear_arith)
                        requires
                            j == exp * pow2((l - 1) as nat) + g * gs + off,
                            exp == l - 1,
                            g == base - 1,
                            off == 0,
                            gs == 1,
                            base == pow2((l - 1) as nat),
                            cycle_length(l) == l * pow2((l - 1) as nat),
                            l >= 1,
                    ;
                    lemma_mod_self_0(cycle_length(l) as int);
                    lemma_state_zero(l);
                }
                self.left_offset = 1;
                self.step = 2;
            } else {
                proof {
                    lemma_step_next_pattern(l, j);
                    lemma_small_mod((j + 1) as nat, cycle_length(l));
                    lemma_pow2_unfold((exp + 1) as nat);
                    lemma_pow2_unfold((exp + 2) as nat);
                    lemma_pow2_le((exp + 2) as nat, l);
                }
                self.left_offset = self.left_offset + 1;
                self.step = self.step * 2;
            }
            self.idx = self.left_offset;
        } else if self.idx >= N - self.step {
            proof {
                lemma_step_next_group(l, j);
                lemma_small_mod((j + 1) as nat, cycle_length(l));
            }
            self.left_offset = self.left_offset + 1;
            self.idx = self.left_offset;
        } else {
            proof {
                lemma_step_in_group(l, j);
                lemma_small_mod((j + 1) as nat, cycle_length(l));
                assert((off + 1) * pattern_step(l, j) == off * pattern_step(l, j) + pattern_step(
                    l,
                    j,
                )) by (nonlinear_arith);
            }
            self.idx = self.idx + self.step;
        }
        Some(result)
    }

    /// Computes the insertion index for position `m` directly from the
    /// closed form, without stepping a generator to it.
    #[verifier::rlimit(60)]
    pub fn nth_slot(m: usize) -> (r: usize)
        requires
            valid_capacity(N as nat),
        ensures
            r as nat == slot_at(log2(N as nat), m as nat),
    {
        if m < N {
            return m;
        }
        let ghost lg = log2(N as nat);
        let ghost j = cycle_index(lg, m as nat);
        proof {
            lemma_capacity_log(N as nat);
            lemma_pow2_pos((lg - 1) as nat);
            lemma_cycle_length_pos(lg);
            lemma2_to64();
            lemma2_to64_rest();
            if lg >= 64 {
                lemma_pow2_le(64, lg);
                assert(false);
            }
        }
        let l = log2_exec(N);
        let half = N / 2;
        proof {
            lemma_pow2_unfold(lg);
            lemma_div_multiples_vanish(pow2((lg - 1) as nat) as int, 2);
            assert(half as nat == pow2((lg - 1) as nat));
            assert(l as int * half as int <= 63 * half as int) by (nonlinear_arith)
                requires
                    l <= 63,
                    half >= 0,
            ;
        }
        let cyc: u128 = (l as u128) * (half as u128);
        proof {
            assert(cyc as nat == cycle_length(lg)) by (nonlinear_arith)
                requires
                    cyc as nat == lg * (half as nat),
                    half as nat == pow2((lg - 1) as nat),
                    cycle_length(lg) == lg * pow2((lg - 1) as nat),
            ;
        }
        let j128: u128 = ((m - N) as u128) % cyc;
        proof {
            assert(j128 as nat == j);
            lemma_mod_division_less_than_divisor((m - N) as int, cyc as int);
            lemma_cycle_parts(lg, j);
        }
        let exp: usize = (j128 / (half as u128)) as usize;
        let jr: usize = (j128 % (half as u128)) as usize;
        proof {
            lemma_mod_division_less_than_divisor(j128 as int, half as int);
            assert(exp as nat == pattern_exponent(lg, j));
            assert(jr as nat == j % pow2((lg - 1) as nat));
        }
        let base = pow2_exec(exp);
        let gs = pow2_exec(l - 1 - exp);
        proof {
            lemma_pow2_le(exp as nat, lg);
            lemma_pow2_le((lg - 1 - exp as nat) as nat, lg);
            assert(base as nat == pattern_base(lg, j));
            assert(gs as nat == group_size(lg, j));
        }
        let g = jr / gs;
        let off = jr % gs;
        proof {
            assert(g as nat == group_number(lg, j));
            lemma_mod_mod(j as int, gs as int, base as int);
            assert(gs as int * base as int == pow2((lg - 1) as nat) as int) by (nonlinear_arith)
                requires
                    pattern_base(lg, j) * group_size(lg, j) == pow2((lg - 1) as nat),
                    base as nat == pattern_base(lg, j),
                    gs as nat == group_size(lg, j),
            ;
            assert(off as nat == group_offset(lg, j));
            lemma_pow2_unfold((pattern_exponent(lg, j) + 1) as nat);
            assert((off * (2 * base)) as nat == group_offset(lg, j) * pattern_step(lg, j));
            assert(base + g + off * (2 * base) < N as nat);
        }
        base + g + off * (2 * base)
    }
}

impl<const N: usize> Default for InfinitySamplerIndexer<N> {
    /// Same as [`InfinitySamplerIndexer::new`]; the state is only
    /// meaningful when the capacity is a power of two greater than one.
    fn default() -> (r: Self)
        ensures
            r.position_spec() == 0,
            valid_capacity(N as nat) ==> r.wf(),
    {
        proof {
            if valid_capacity(N as nat) {
                let l = log2(N as nat);
                lemma_capacity_log(N as nat);
                lemma_pow2_pos(l);
                lemma_state_zero(l);
            }
        }
        Self { iterator_pos: 0, idx: 1, left_offset: 1, step: 2 }
    }
}

impl<const N: usize> ReverseInfinitySamplerIndexer<N> {
    /// Number of forward positions still ahead of this generator.
    pub closed spec fn position_spec(&self) -> nat {
        self.iterator_pos as nat
    }

    /// Same well-formedness as the forward generator: the cyclic state
    /// is what the closed form assigns to the current position.
    pub closed spec fn wf(&self) -> bool {
        let l = log2(N as nat);
        let j = cycle_index(l, self.iterator_pos as nat);
        &&& valid_capacity(N as nat)
        &&& self.idx == cyclic_slot(l, j)
        &&& self.left_offset == pattern_base(l, j) + group_number(l, j)
        &&& self.step == pattern_step(l, j)
    }

    /// The same state, as a forward generator.
    pub closed spec fn reversed_spec(&self) -> InfinitySamplerIndexer<N> {
        InfinitySamplerIndexer {
            iterator_pos: self.iterator_pos,
            idx: self.idx,
            left_offset: self.left_offset,
            step: self.step,
        }
    }

    /// The current position in terms of total forward index count.
    /// Decreases monotonically.
    pub fn position(&self) -> (r: usize)
        ensures
            r == self.position_spec(),
    {
        self.iterator_pos
    }

    /// Turns this generator around again: an exact state transfer, at
    /// the same position.  The next index yielded by the forward
    /// generator is the one this generator would have produced next,
    /// had it kept going forward.
    pub fn reverse(self) -> (r: InfinitySamplerIndexer<N>)
        ensures
            r == self.reversed_spec(),
            r.position_spec() == self.position_spec(),
            self.wf() ==> r.wf(),
    {
        InfinitySamplerIndexer {
            iterator_pos: self.iterator_pos,
            idx: self.idx,
            left_offset: self.left_offset,
            step: self.step,
        }
    }

    /// Steps one position back and yields the insertion index the
    /// forward generator produced there; yields nothing once position 0
    /// has been passed.
    pub fn next(&mut self) -> (r: Option<usize>)
        requires
            old(self).wf(),
        ensures
            final(self).wf(),
            old(self).position_spec() == 0 ==> r is None && *final(self) == *old(self),
            old(self).position_spec() >= 1 ==> {
                &&& final(self).position_spec() == old(self).position_spec() - 1
                &&& r matches Some(s) && s as nat == slot_at(
                    log2(N as nat),
                    (old(self).position_spec() - 1) as nat,
                )
            },
    {
        let ghost l = log2(N as nat);
        proof {
            lemma_capacity_log(N as nat);
            lemma_pow2_pos((l - 1) as nat);
            lemma_cycle_length_pos(l);
        }
        if self.iterator_pos == 0 {
            return None;
        }
        let ghost m = self.iterator_pos as nat;
        let ghost jj = cycle_index(l, m);
        self.iterator_pos = self.iterator_pos - 1;
        let ghost mp = (m - 1) as nat;
        let ghost jp = cycle_index(l, mp);
        if self.iterator_pos < N {
            proof {
                if m >= N as nat {
                    lemma_small_mod(0, cycle_length(l));
                }
            }
            return Some(self.iterator_pos);
        }
        proof {
            lemma_mod_division_less_than_divisor((mp - N as nat) as int, cycle_length(l) as int);
            lemma_mod_succ((m - N as nat) as nat, cycle_length(l));
            lemma_cycle_parts(l, jj);
            lemma_slot_one(l, jj);
        }
        let ghost exp = pattern_exponent(l, jj);
        let ghost base = pattern_base(l, jj);
        let ghost gs = group_size(l, jj);
        let ghost g = group_number(l, jj);
        let ghost off = group_offset(l, jj);
        if self.idx == 1 {
            proof {
                assert(jj == 0);
                if jp + 1 < cycle_length(l) {
                    lemma_small_mod((jp + 1) as nat, cycle_length(l));
                    assert(false);
                }
                assert(jp == cycle_length(l) - 1);
                lemma_state_last(l);
            }
            self.left_offset = N - 1;
            self.step = N;
            self.idx = N - 1;
        } else {
            proof {
                assert(jj >= 1);
                if jp + 1 == cycle_length(l) {
                    lemma_mod_self_0(cycle_length(l) as int);
                    assert(false);
                }
                lemma_small_mod((jp + 1) as nat, cycle_length(l));
                assert(jp == jj - 1);
            }
            if self.idx == self.left_offset {
                proof {
                    assert(off * pattern_step(l, jj) == 0);
                    assert(off == 0) by (nonlinear_arith)
                        requires
                            off * pattern_step(l, jj) == 0,
                            pattern_step(l, jj) >= 2,
                            off >= 0,
                    ;
                }
                if self.left_offset == self.step / 2 {
                    proof {
                        lemma_pow2_unfold((exp + 1) as nat);
                        lemma_div_multiples_vanish(base as int, 2);
                        assert(g == 0);
                        lemma_back_prev_pattern(l, jj);
                        lemma_cycle_parts(l, jp);
                        lemma_pow2_unfold(exp);
                        assert(pattern_step(l, jp) == base);
                    }
                    self.step = self.step / 2;
                    self.left_offset = self.left_offset - 1;
                } else {
                    proof {
                        lemma_pow2_unfold((exp + 1) as nat);
                        lemma_div_multiples_vanish(base as int, 2);
                        assert(g >= 1);
                        lemma_back_prev_group(l, jj);
                        lemma_cycle_parts(l, jp);
                    }
                    self.left_offset = self.left_offset - 1;
                }
                proof {
                    assert(self.left_offset == pattern_base(l, jp) + group_number(l, jp));
                    assert(self.step == pattern_step(l, jp));
                    assert(group_offset(l, jp) == group_size(l, jp) - 1);
                    assert(self.step <= N) by (nonlinear_arith)
                        requires
                            pattern_step(l, jp) * group_size(l, jp) == pow2(l),
                            self.step == pattern_step(l, jp),
                            group_size(l, jp) >= 1,
                            self.step >= 0,
                            N as nat == pow2(l),
                    ;
                    assert(cyclic_slot(l, jp) == self.left_offset + (N - self.step))
                        by (nonlinear_arith)
                        requires
                            cyclic_slot(l, jp) == pattern_base(l, jp) + group_number(l, jp)
                                + group_offset(l, jp) * pattern_step(l, jp),
                            group_offset(l, jp) == group_size(l, jp) - 1,
                            pattern_step(l, jp) * group_size(l, jp) == pow2(l),
                            self.left_offset == pattern_base(l, jp) + group_number(l, jp),
                            self.step == pattern_step(l, jp),
                            N as nat == pow2(l),
                            self.step <= N,
                            group_size(l, jp) >= 1,
                    ;
                    assert(cyclic_slot(l, jp) < pow2(l));
                }
                self.idx = self.left_offset + (N - self.step);
            } else {
                proof {
                    assert(off >= 1) by (nonlinear_arith)
                        requires
                            cyclic_slot(l, jj) == pattern_base(l, jj) + group_number(l, jj) + off
                                * pattern_step(l, jj),
                            cyclic_slot(l, jj) != pattern_base(l, jj) + group_number(l, jj),
                            off >= 0,
                    ;
                    lemma_back_in_group(l, jj);
                    lemma_cycle_parts(l, jp);
                    assert(cyclic_slot(l, jp) == cyclic_slot(l, jj) - pattern_step(l, jj))
                        by (nonlinear_arith)
                        requires
                            cyclic_slot(l, jp) == pattern_base(l, jp) + group_number(l, jp)
                                + group_offset(l, jp) * pattern_step(l, jp),
                            cyclic_slot(l, jj) == pattern_base(l, jj) + group_number(l, jj)
                                + group_offset(l, jj) * pattern_step(l, jj),
                            pattern_base(l, jp) == pattern_base(l, jj),
                            group_number(l, jp) == group_number(l, jj),
                            pattern_step(l, jp) == pattern_step(l, jj),
                            group_offset(l, jp) == group_offset(l, jj) - 1,
                    ;
                }
                self.idx = self.idx - self.step;
            }
        }
        Some(self.idx)
    }
}

/// Reversing a generator twice restores it exactly.
pub proof fn lemma_reverse_round_trip<const N: usize>(it: InfinitySamplerIndexer<N>)
    ensures
        it.reversed_spec().reversed_spec() == it,
{
}

/// Stepping backward inside a group.
proof fn lemma_back_in_group(l: nat, j: nat)
    requires
        l >= 1,
        1 <= j < cycle_length(l),
        group_offset(l, j) >= 1,
    ensures
        pattern_exponent(l, (j - 1) as nat) == pattern_exponent(l, j),
        group_number(l, (j - 1) as nat) == group_number(l, j),
        group_offset(l, (j - 1) as nat) == group_offset(l, j) - 1,
{
    lemma_cycle_parts(l, j);
    let half = pow2((l - 1) as nat);
    let exp = pattern_exponent(l, j);
    let gs = group_size(l, j);
    let g = group_number(l, j);
    let off = group_offset(l, j);
    lemma_state_of(l, (j - 1) as nat, exp, g, (off - 1) as nat);
}

} // verus!
