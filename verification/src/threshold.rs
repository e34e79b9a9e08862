//! The expansion bar: at round `r` a staged paper must have gathered a
//! citation signal of at least `floor(c^r)`, where `c > 1` is the
//! crawl's connectivity factor.  The bar grows geometrically with the
//! depth, which is what keeps the crawl from exploding on dense
//! citation networks.

use vstd::prelude::*;
use vstd::arithmetic::power::pow;
use vstd::arithmetic::power::lemma_pow_positive;
use vstd::arithmetic::div_mod::lemma_div_is_ordered;
use vstd::arithmetic::div_mod::lemma_div_multiples_vanish;
use vstd::arithmetic::div_mod::lemma_fundamental_div_mod;
use vstd::arithmetic::div_mod::lemma_mod_bound;
use vstd::arithmetic::div_mod::lemma_div_pos_is_pos;
use vstd::arithmetic::power2::pow2;
use vstd::arithmetic::power2::lemma2_to64;
use crate::bignum::big_le;
use crate::bignum::big_mul_u64;
use crate::bignum::big_pow;
use crate::bignum::big_shift64;
use crate::bignum::canonical;
use crate::bignum::limbs_value;

verus! {

/// The crawl's connectivity factor: a rational number strictly greater
/// than one, held as numerator over denominator.
pub struct Connectivity {
    pub num: u64,
    pub den: u64,
}

impl Connectivity {
    /// Well formed when the stored rational is strictly above one.
    pub open spec fn wf(&self) -> bool {
        1 <= self.den < self.num
    }

    /// Builds a factor `num/den`, refusing any value not above one.
    pub fn new(num: u64, den: u64) -> (r: Option<Connectivity>)
        ensures
            match r {
                Some(c) => c.wf() && c.num == num && c.den == den,
                None => !(1 <= den < num),
            },
    {
        if 1 <= den && den < num {
            Some(Connectivity { num, den })
        } else {
            None
        }
    }
}

/// The signal bar for a 0-indexed round: `floor(c^round)` where `c` is
/// the rational `num/den`.  Round 0 gives 1, so a fresh entry (signal 1)
/// always clears the first bar.
pub open spec fn threshold_spec(c: Connectivity, round: nat) -> int {
    pow(c.num as int, round) / pow(c.den as int, round)
}

proof fn lemma_pow_base_monotone(a: int, b: int, e: nat)
    requires
        1 <= a <= b,
    ensures
        1 <= pow(a, e) <= pow(b, e),
    decreases e,
{
    reveal(pow);
    if e == 0 {
    } else {
        lemma_pow_base_monotone(a, b, (e - 1) as nat);
        assert(pow(a, e) == a * pow(a, (e - 1) as nat));
        assert(pow(b, e) == b * pow(b, (e - 1) as nat));
        assert(1 <= a * pow(a, (e - 1) as nat) <= b * pow(b, (e - 1) as nat))
            by (nonlinear_arith)
            requires
                1 <= a <= b,
                1 <= pow(a, (e - 1) as nat) <= pow(b, (e - 1) as nat),
        ;
    }
}

/// One step of the bar's growth: the threshold cannot shrink from one
/// round to the next.
proof fn lemma_threshold_step(c: Connectivity, r: nat)
    requires
        c.wf(),
    ensures
        threshold_spec(c, r) <= threshold_spec(c, r + 1),
{
    reveal(pow);
    let n = c.num as int;
    let d = c.den as int;
    let a = pow(n, r);
    let b = pow(d, r);
    lemma_pow_positive(n, r);
    lemma_pow_positive(d, r);
    let q = a / b;
    lemma_div_pos_is_pos(a, b);
    lemma_fundamental_div_mod(a, b);
    lemma_mod_bound(a, b);
    assert(a >= b * q);
    assert(pow(n, r + 1) == n * a);
    assert(pow(d, r + 1) == d * b);
    assert(n * a >= q * (d * b)) by (nonlinear_arith)
        requires
            a >= b * q,
            q >= 0,
            b >= 1,
            1 <= d <= n,
    ;
    assert(1 <= d * b) by (nonlinear_arith)
        requires
            1 <= d,
            1 <= b,
    ;
    lemma_div_multiples_vanish(q, d * b);
    lemma_div_is_ordered(q * (d * b), n * a, d * b);
    assert((d * b) * q == q * (d * b));
}

/// Round zero's bar is exactly one: a fresh entry, whose signal starts
/// at one, always clears it.
pub proof fn lemma_threshold_round_zero(c: Connectivity)
    requires
        c.wf(),
    ensures
        threshold_spec(c, 0) == 1,
{
    reveal(pow);
    lemma_div_multiples_vanish(1, 1);
}

/// The threshold is at least one in every round: a bar an entry with
/// the minimum signal of one can clear only in round zero or while the
/// factor's powers still round down to one.
pub proof fn lemma_threshold_at_least_one(c: Connectivity, r: nat)
    requires
        c.wf(),
    ensures
        1 <= threshold_spec(c, r),
{
    let n = c.num as int;
    let d = c.den as int;
    lemma_pow_base_monotone(d, n, r);
    lemma_pow_positive(d, r);
    let b = pow(d, r);
    lemma_div_multiples_vanish(1, b);
    lemma_div_is_ordered(b, pow(n, r), b);
    assert(b * 1 == b);
}

/// For every connectivity factor above one, the threshold is
/// non-decreasing in the round number.
pub proof fn lemma_threshold_monotone(c: Connectivity, r1: nat, r2: nat)
    requires
        c.wf(),
        r1 <= r2,
    ensures
        threshold_spec(c, r1) <= threshold_spec(c, r2),
    decreases r2 - r1,
{
    if r1 < r2 {
        lemma_threshold_monotone(c, r1, (r2 - 1) as nat);
        lemma_threshold_step(c, (r2 - 1) as nat);
    }
}

impl Connectivity {
    /// Computes the bar for a round exactly, or `None` when the bar
    /// itself exceeds the largest machine word.  Such a bar is beyond
    /// every possible signal, in this round and (the bar only grows)
    /// every later one, so refusing it is the same as selecting
    /// nothing.
    pub fn threshold(&self, round: u64) -> (r: Option<u64>)
        requires
            self.wf(),
        ensures
            match r {
                Some(t) => t == threshold_spec(*self, round as nat) && threshold_spec(
                    *self,
                    round as nat,
                ) <= u64::MAX,
                None => threshold_spec(*self, round as nat) > u64::MAX,
            },
    {
        let ghost aa = pow(self.num as int, round as nat);
        let ghost bb = pow(self.den as int, round as nat);
        let a = big_pow(self.num, round);
        let b = big_pow(self.den, round);
        proof {
            lemma_pow_positive(self.num as int, round as nat);
            lemma_pow_positive(self.den as int, round as nat);
            lemma2_to64();
        }
        let shifted = big_shift64(&b);
        if big_le(&shifted, &a) {
            proof {
                lemma_div_is_ordered(bb * pow2(64), aa, bb);
                lemma_div_multiples_vanish(pow2(64) as int, bb);
                assert((bb * pow2(64)) / bb == pow2(64));
                assert(threshold_spec(*self, round as nat) >= pow2(64));
            }
            return None;
        }
        let mut lo: u64 = 1;
        let mut hi: u64 = u64::MAX;
        proof {
            lemma_pow_base_monotone(self.den as int, self.num as int, round as nat);
            assert(1 * bb == bb);
            assert((hi + 1) * bb == bb * pow2(64)) by (nonlinear_arith)
                requires
                    hi == 0xFFFF_FFFF_FFFF_FFFFu64,
                    pow2(64) == 0x1_0000_0000_0000_0000,
            ;
        }
        while lo < hi
            invariant
                self.wf(),
                1 <= lo <= hi,
                aa == pow(self.num as int, round as nat),
                bb == pow(self.den as int, round as nat),
                bb >= 1,
                lo * bb <= aa,
                aa < (hi + 1) * bb,
                limbs_value(a@) == aa,
                limbs_value(b@) == bb,
                canonical(a@),
                canonical(b@),
            decreases hi - lo,
        {
            let gap = hi - lo;
            let mid = lo + (gap + 1) / 2;
            proof {
                lemma_fundamental_div_mod((gap + 1) as int, 2);
                assert(lo < mid <= hi);
            }
            let bt = big_mul_u64(&b, mid);
            if big_le(&bt, &a) {
                proof {
                    assert(mid * bb == bb * mid) by (nonlinear_arith);
                }
                lo = mid;
            } else {
                proof {
                    assert(((mid - 1) + 1) * bb == bb * mid) by (nonlinear_arith);
                }
                hi = mid - 1;
            }
        }
        proof {
            lemma_fundamental_div_mod(aa, bb);
            lemma_mod_bound(aa, bb);
            assert(lo == aa / bb) by (nonlinear_arith)
                requires
                    aa == bb * (aa / bb) + aa % bb,
                    0 <= aa % bb < bb,
                    bb >= 1,
                    lo * bb <= aa,
                    aa < (lo + 1) * bb,
            ;
        }
        Some(lo)
    }
}

} // verus!
