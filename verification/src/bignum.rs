//! Just enough arbitrary-precision unsigned arithmetic to carry the
//! threshold's powers exactly: little-endian sequences of 32-bit
//! limbs, built by multiply-by-word, and compared by value.

use vstd::prelude::*;
use vstd::arithmetic::power::pow;
use vstd::arithmetic::power2::pow2;
use vstd::arithmetic::power2::lemma_pow2_adds;
use vstd::arithmetic::power2::lemma_pow2_pos;
use vstd::arithmetic::power2::lemma_pow2_strictly_increases;
use vstd::arithmetic::power2::lemma2_to64;
use vstd::arithmetic::div_mod::lemma_fundamental_div_mod;
use vstd::arithmetic::div_mod::lemma_div_decreases;

verus! {

/// The number a limb sequence stands for, little-endian in base 2^32.
pub open spec fn limbs_value(s: Seq<u32>) -> int
    decreases s.len(),
{
    if s.len() == 0 {
        0
    } else {
        limbs_value(s.drop_last()) + s.last() * pow2((32 * (s.len() - 1)) as nat)
    }
}

/// No wasted high limbs: the top limb, if any, is non-zero.
pub open spec fn canonical(s: Seq<u32>) -> bool {
    s.len() == 0 || s.last() != 0
}

/// A limb sequence's value is non-negative and below the base raised
/// to its length.
pub proof fn lemma_limbs_value_bounds(s: Seq<u32>)
    ensures
        0 <= limbs_value(s) < pow2((32 * s.len()) as nat),
    decreases s.len(),
{
    lemma_pow2_pos((32 * s.len()) as nat);
    if s.len() > 0 {
        lemma_limbs_value_bounds(s.drop_last());
        lemma_pow2_adds((32 * (s.len() - 1)) as nat, 32);
        lemma2_to64();
        assert(0 <= limbs_value(s) < pow2((32 * s.len()) as nat)) by (nonlinear_arith)
            requires
                limbs_value(s) == limbs_value(s.drop_last()) + s.last() * pow2(
                    (32 * (s.len() - 1)) as nat,
                ),
                0 <= limbs_value(s.drop_last()) < pow2((32 * (s.len() - 1)) as nat),
                s.last() < 0x1_0000_0000,
                pow2((32 * s.len()) as nat) == pow2((32 * (s.len() - 1)) as nat) * 0x1_0000_0000,
                pow2((32 * (s.len() - 1)) as nat) > 0,
        ;
    }
}

/// A canonical, non-empty limb sequence reaches at least the place
/// value of its top limb.
proof fn lemma_limbs_value_canonical_low(s: Seq<u32>)
    requires
        s.len() > 0,
        s.last() != 0,
    ensures
        limbs_value(s) >= pow2((32 * (s.len() - 1)) as nat),
{
    lemma_limbs_value_bounds(s.drop_last());
    lemma_pow2_pos((32 * (s.len() - 1)) as nat);
    assert(limbs_value(s) >= pow2((32 * (s.len() - 1)) as nat)) by (nonlinear_arith)
        requires
            limbs_value(s) == limbs_value(s.drop_last()) + s.last() * pow2(
                (32 * (s.len() - 1)) as nat,
            ),
            0 <= limbs_value(s.drop_last()),
            s.last() >= 1,
            pow2((32 * (s.len() - 1)) as nat) > 0,
    ;
}

/// Splitting a limb sequence at position `k` splits its value at the
/// place value of that position.
proof fn lemma_limbs_split(s: Seq<u32>, k: int)
    requires
        0 <= k <= s.len(),
    ensures
        limbs_value(s) == limbs_value(s.take(k)) + pow2((32 * k) as nat) * limbs_value(s.skip(k)),
    decreases s.len(),
{
    if k == s.len() {
        assert(s.take(k) =~= s);
        assert(s.skip(k) =~= Seq::<u32>::empty());
    } else {
        let t = s.drop_last();
        lemma_limbs_split(t, k);
        assert(s.take(k) =~= t.take(k));
        assert(s.skip(k).drop_last() =~= t.skip(k));
        assert(s.skip(k).last() == s.last());
        assert(s.skip(k).len() == s.len() - k);
        lemma_pow2_adds((32 * k) as nat, (32 * (s.len() - k - 1)) as nat);
        assert(limbs_value(s) == limbs_value(s.take(k)) + pow2((32 * k) as nat) * limbs_value(
            s.skip(k),
        )) by (nonlinear_arith)
            requires
                limbs_value(s) == limbs_value(t) + s.last() * pow2((32 * (s.len() - 1)) as nat),
                limbs_value(t) == limbs_value(s.take(k)) + pow2((32 * k) as nat) * limbs_value(
                    t.skip(k),
                ),
                limbs_value(s.skip(k)) == limbs_value(t.skip(k)) + s.last() * pow2(
                    (32 * (s.len() - k - 1)) as nat,
                ),
                pow2((32 * (s.len() - 1)) as nat) == pow2((32 * k) as nat) * pow2(
                    (32 * (s.len() - k - 1)) as nat,
                ),
        ;
    }
}

/// Pops zero top limbs until the sequence is canonical; the value is
/// untouched.
fn big_trim(v: &mut Vec<u32>)
    ensures
        canonical(final(v)@),
        limbs_value(final(v)@) == limbs_value(old(v)@),
{
    while v.len() > 0 && v[v.len() - 1] == 0
        invariant
            limbs_value(v@) == limbs_value(old(v)@),
        decreases v.len(),
    {
        let ghost pre = v@;
        v.pop();
        proof {
            assert(v@ =~= pre.drop_last());
            assert(limbs_value(pre) == limbs_value(pre.drop_last()));
        }
    }
}

/// The big form of one machine word.
pub(crate) fn big_from_u64(x: u64) -> (r: Vec<u32>)
    ensures
        limbs_value(r@) == x,
        canonical(r@),
{
    let lo: u32 = (x % 0x1_0000_0000) as u32;
    let hi: u32 = (x / 0x1_0000_0000) as u32;
    let mut v: Vec<u32> = Vec::new();
    v.push(lo);
    v.push(hi);
    proof {
        lemma2_to64();
        lemma_fundamental_div_mod(x as int, 0x1_0000_0000);
        let two = seq![lo, hi];
        assert(v@ =~= two);
        assert(two.drop_last() =~= seq![lo]);
        assert(seq![lo].drop_last() =~= Seq::<u32>::empty());
        assert(limbs_value(Seq::<u32>::empty()) == 0);
        assert(limbs_value(seq![lo]) == 0 + lo * pow2(0));
        assert(lo * pow2(0) == lo) by (nonlinear_arith)
            requires
                pow2(0) == 1,
        ;
        assert(limbs_value(two) == limbs_value(seq![lo]) + hi * pow2(32));
    }
    big_trim(&mut v);
    v
}

/// The product of a big number and one machine word, computed limb by
/// limb with a carry.
pub(crate) fn big_mul_u64(a: &Vec<u32>, m: u64) -> (r: Vec<u32>)
    ensures
        limbs_value(r@) == limbs_value(a@) * m,
        canonical(r@),
{
    let mut out: Vec<u32> = Vec::new();
    let mut carry: u128 = 0;
    let mut i: usize = 0;
    while i < a.len()
        invariant
            i <= a.len(),
            out@.len() == i,
            carry <= 0xFFFF_FFFF_FFFF_FFFFu128,
            limbs_value(out@) + carry * pow2((32 * i) as nat) == limbs_value(a@.take(i as int))
                * m,
        decreases a.len() - i,
    {
        proof {
            lemma2_to64();
            lemma_pow2_adds((32 * i) as nat, 32);
        }
        proof {
            assert((a@[i as int] as int) * (m as int) <= 0xFFFF_FFFFu128
                * 0xFFFF_FFFF_FFFF_FFFFu128) by (nonlinear_arith)
                requires
                    0 <= a@[i as int] <= 0xFFFF_FFFFu32,
                    0 <= m <= 0xFFFF_FFFF_FFFF_FFFFu64,
            ;
        }
        let cur: u128 = (a[i] as u128) * (m as u128) + carry;
        let limb: u32 = (cur % 0x1_0000_0000) as u32;
        let ghost pre = out@;
        out.push(limb);
        proof {
            lemma_fundamental_div_mod(cur as int, 0x1_0000_0000);
            assert(out@ =~= pre.push(limb));
            assert(out@.drop_last() =~= pre);
            assert(a@.take(i + 1).drop_last() =~= a@.take(i as int));
            assert(a@.take(i + 1).last() == a@[i as int]);
            assert(limbs_value(out@) + (cur / 0x1_0000_0000) * pow2((32 * (i + 1)) as nat)
                == limbs_value(a@.take(i + 1)) * m) by (nonlinear_arith)
                requires
                    limbs_value(out@) == limbs_value(pre) + (cur % 0x1_0000_0000) * pow2(
                        (32 * i) as nat,
                    ),
                    limbs_value(pre) + carry * pow2((32 * i) as nat) == limbs_value(
                        a@.take(i as int),
                    ) * m,
                    limbs_value(a@.take(i + 1)) == limbs_value(a@.take(i as int)) + a@[i as int]
                        * pow2((32 * i) as nat),
                    cur == a@[i as int] * m + carry,
                    cur == 0x1_0000_0000 * (cur / 0x1_0000_0000) + cur % 0x1_0000_0000,
                    pow2((32 * (i + 1)) as nat) == pow2((32 * i) as nat) * 0x1_0000_0000,
            ;
            assert((cur / 0x1_0000_0000) <= 0xFFFF_FFFF_FFFF_FFFFu128) by (nonlinear_arith)
                requires
                    cur <= 0xFFFF_FFFFu128 * 0xFFFF_FFFF_FFFF_FFFFu128 + 0xFFFF_FFFF_FFFF_FFFFu128,
                    cur == 0x1_0000_0000 * (cur / 0x1_0000_0000) + cur % 0x1_0000_0000,
                    0 <= cur % 0x1_0000_0000,
            ;
        }
        carry = cur / 0x1_0000_0000;
        i = i + 1;
    }
    proof {
        assert(a@.take(a@.len() as int) =~= a@);
    }
    while carry > 0
        invariant
            limbs_value(out@) + carry * pow2((32 * out@.len()) as nat) == limbs_value(a@) * m,
        decreases carry,
    {
        proof {
            lemma2_to64();
            lemma_pow2_adds((32 * out@.len()) as nat, 32);
            lemma_fundamental_div_mod(carry as int, 0x1_0000_0000);
            lemma_div_decreases(carry as int, 0x1_0000_0000);
        }
        let limb: u32 = (carry % 0x1_0000_0000) as u32;
        let ghost pre = out@;
        let ghost old_carry = carry;
        out.push(limb);
        carry = carry / 0x1_0000_0000;
        proof {
            assert(out@ =~= pre.push(limb));
            assert(out@.drop_last() =~= pre);
            assert(limbs_value(out@) + carry * pow2((32 * out@.len()) as nat) == limbs_value(a@)
                * m) by (nonlinear_arith)
                requires
                    limbs_value(out@) == limbs_value(pre) + (old_carry % 0x1_0000_0000) * pow2(
                        (32 * pre.len()) as nat,
                    ),
                    limbs_value(pre) + old_carry * pow2((32 * pre.len()) as nat) == limbs_value(a@)
                        * m,
                    old_carry == 0x1_0000_0000 * carry + old_carry % 0x1_0000_0000,
                    out@.len() == pre.len() + 1,
                    pow2((32 * (pre.len() + 1)) as nat) == pow2((32 * pre.len()) as nat)
                        * 0x1_0000_0000,
            ;
        }
    }
    proof {
        lemma_pow2_pos((32 * out@.len()) as nat);
    }
    big_trim(&mut out);
    out
}

/// `b` raised to `e`, exactly, however large.
pub(crate) fn big_pow(b: u64, e: u64) -> (r: Vec<u32>)
    requires
        b >= 1,
    ensures
        limbs_value(r@) == pow(b as int, e as nat),
        canonical(r@),
{
    let mut acc = big_from_u64(1);
    proof {
        reveal(pow);
    }
    let mut i: u64 = 0;
    while i < e
        invariant
            i <= e,
            limbs_value(acc@) == pow(b as int, i as nat),
            canonical(acc@),
        decreases e - i,
    {
        acc = big_mul_u64(&acc, b);
        proof {
            reveal(pow);
            assert(pow(b as int, (i + 1) as nat) == b * pow(b as int, i as nat));
            assert(pow(b as int, i as nat) * b == b * pow(b as int, i as nat)) by (nonlinear_arith);
        }
        i = i + 1;
    }
    acc
}

/// The big number shifted up by one machine word: its value times 2^64.
pub(crate) fn big_shift64(a: &Vec<u32>) -> (r: Vec<u32>)
    requires
        canonical(a@),
    ensures
        limbs_value(r@) == limbs_value(a@) * pow2(64),
        canonical(r@),
{
    if a.len() == 0 {
        let r: Vec<u32> = Vec::new();
        proof {
            assert(r@ =~= Seq::<u32>::empty());
        }
        return r;
    }
    let mut r: Vec<u32> = Vec::new();
    r.push(0);
    r.push(0);
    proof {
        let two = seq![0u32, 0u32];
        assert(r@ =~= two);
        assert(two.drop_last() =~= seq![0u32]);
        assert(seq![0u32].drop_last() =~= Seq::<u32>::empty());
        assert(limbs_value(Seq::<u32>::empty()) == 0);
        assert(limbs_value(seq![0u32]) == 0 + 0u32 * pow2(0));
        assert(limbs_value(two) == limbs_value(seq![0u32]) + 0u32 * pow2(32));
        assert(0u32 * pow2(0) == 0 && 0u32 * pow2(32) == 0) by (nonlinear_arith);
        assert(limbs_value(r@) == 0);
    }
    let mut i: usize = 0;
    while i < a.len()
        invariant
            i <= a.len(),
            a@.len() > 0,
            r@.len() == i + 2,
            limbs_value(r@) == pow2(64) * limbs_value(a@.take(i as int)),
            i > 0 ==> r@.last() == a@[i - 1],
        decreases a.len() - i,
    {
        proof {
            lemma_pow2_adds(64, (32 * i) as nat);
        }
        let ghost pre = r@;
        r.push(a[i]);
        proof {
            assert(r@ =~= pre.push(a@[i as int]));
            assert(r@.drop_last() =~= pre);
            assert(a@.take(i + 1).drop_last() =~= a@.take(i as int));
            assert(a@.take(i + 1).last() == a@[i as int]);
            assert(limbs_value(r@) == pow2(64) * limbs_value(a@.take(i + 1))) by (nonlinear_arith)
                requires
                    limbs_value(r@) == limbs_value(pre) + a@[i as int] * pow2((32 * (i + 2))
                        as nat),
                    limbs_value(pre) == pow2(64) * limbs_value(a@.take(i as int)),
                    limbs_value(a@.take(i + 1)) == limbs_value(a@.take(i as int)) + a@[i as int]
                        * pow2((32 * i) as nat),
                    pow2((32 * (i + 2)) as nat) == pow2(64) * pow2((32 * i) as nat),
            ;
        }
        i = i + 1;
    }
    proof {
        assert(a@.take(a@.len() as int) =~= a@);
        assert(r@.last() == a@.last());
        assert(pow2(64) * limbs_value(a@) == limbs_value(a@) * pow2(64)) by (nonlinear_arith);
    }
    r
}

/// Whether one big number is at most another, decided from the top
/// limb down.
pub(crate) fn big_le(a: &Vec<u32>, b: &Vec<u32>) -> (r: bool)
    requires
        canonical(a@),
        canonical(b@),
    ensures
        r == (limbs_value(a@) <= limbs_value(b@)),
{
    if a.len() < b.len() {
        proof {
            lemma_limbs_value_bounds(a@);
            lemma_limbs_value_canonical_low(b@);
            let lo_e = (32 * a@.len()) as nat;
            let hi_e = (32 * (b@.len() - 1)) as nat;
            if lo_e < hi_e {
                lemma_pow2_strictly_increases(lo_e, hi_e);
            }
        }
        return true;
    }
    if b.len() < a.len() {
        proof {
            lemma_limbs_value_bounds(b@);
            lemma_limbs_value_canonical_low(a@);
            let lo_e = (32 * b@.len()) as nat;
            let hi_e = (32 * (a@.len() - 1)) as nat;
            if lo_e < hi_e {
                lemma_pow2_strictly_increases(lo_e, hi_e);
            }
        }
        return false;
    }
    let n = a.len();
    let mut i: usize = n;
    while i > 0
        invariant
            i <= n,
            n == a@.len(),
            n == b@.len(),
            a@.skip(i as int) == b@.skip(i as int),
        decreases i,
    {
        let ai = a[i - 1];
        let bi = b[i - 1];
        if ai != bi {
            proof {
                let k = (i - 1) as int;
                lemma_limbs_split(a@, k + 1);
                lemma_limbs_split(b@, k + 1);
                assert(a@.take(k + 1).drop_last() =~= a@.take(k));
                assert(a@.take(k + 1).last() == a@[k]);
                assert(b@.take(k + 1).drop_last() =~= b@.take(k));
                assert(b@.take(k + 1).last() == b@[k]);
                assert(a@.skip(k + 1) == b@.skip(k + 1));
                lemma_limbs_value_bounds(a@.take(k));
                lemma_limbs_value_bounds(b@.take(k));
                lemma_limbs_value_bounds(a@.skip(k + 1));
                lemma_pow2_pos((32 * k) as nat);
                lemma_pow2_pos((32 * (k + 1)) as nat);
                if ai < bi {
                    assert(limbs_value(a@) < limbs_value(b@)) by (nonlinear_arith)
                        requires
                            limbs_value(a@) == limbs_value(a@.take(k)) + a@[k] * pow2(
                                (32 * k) as nat,
                            ) + pow2((32 * (k + 1)) as nat) * limbs_value(a@.skip(k + 1)),
                            limbs_value(b@) == limbs_value(b@.take(k)) + b@[k] * pow2(
                                (32 * k) as nat,
                            ) + pow2((32 * (k + 1)) as nat) * limbs_value(b@.skip(k + 1)),
                            limbs_value(a@.skip(k + 1)) == limbs_value(b@.skip(k + 1)),
                            0 <= limbs_value(a@.take(k)) < pow2((32 * k) as nat),
                            0 <= limbs_value(b@.take(k)),
                            a@[k] < b@[k],
                            pow2((32 * k) as nat) > 0,
                    ;
                } else {
                    assert(limbs_value(b@) < limbs_value(a@)) by (nonlinear_arith)
                        requires
                            limbs_value(a@) == limbs_value(a@.take(k)) + a@[k] * pow2(
                                (32 * k) as nat,
                            ) + pow2((32 * (k + 1)) as nat) * limbs_value(a@.skip(k + 1)),
                            limbs_value(b@) == limbs_value(b@.take(k)) + b@[k] * pow2(
                                (32 * k) as nat,
                            ) + pow2((32 * (k + 1)) as nat) * limbs_value(b@.skip(k + 1)),
                            limbs_value(a@.skip(k + 1)) == limbs_value(b@.skip(k + 1)),
                            0 <= limbs_value(b@.take(k)) < pow2((32 * k) as nat),
                            0 <= limbs_value(a@.take(k)),
                            b@[k] < a@[k],
                            pow2((32 * k) as nat) > 0,
                    ;
                }
            }
            return ai < bi;
        }
        proof {
            assert(a@.skip((i - 1) as int) =~= b@.skip((i - 1) as int)) by {
                assert forall|j: int|
                    0 <= j < a@.skip((i - 1) as int).len() implies #[trigger] a@.skip(
                    (i - 1) as int,
                )[j] == b@.skip((i - 1) as int)[j] by {
                    if j > 0 {
                        assert(a@.skip(i as int)[j - 1] == b@.skip(i as int)[j - 1]);
                    }
                }
            }
        }
        i = i - 1;
    }
    proof {
        assert(a@.skip(0) =~= a@);
        assert(b@.skip(0) =~= b@);
    }
    true
}

} // verus!
