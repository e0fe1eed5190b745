//! Naturals of any size, as little-endian vectors of 32-bit limbs.

use vstd::arithmetic::power2::pow2;
use vstd::arithmetic::power2::{lemma_pow2_adds, lemma_pow2_pos};
use vstd::prelude::*;

verus! {

/// The weight of the limb at position `i`.
pub open spec fn weight(i: nat) -> nat {
    pow2(32 * i)
}

/// The natural that the limbs stand for.
pub open spec fn natural(limbs: Seq<u32>) -> nat
    decreases limbs.len(),
{
    if limbs.len() == 0 {
        0
    } else {
        natural(limbs.drop_last()) + limbs.last() as nat * weight((limbs.len() - 1) as nat)
    }
}

proof fn lemma_weight(i: nat)
    ensures
        weight(0) == 1,
        weight(i) > 0,
        weight(i + 1) == 0x1_0000_0000 * weight(i),
{
    vstd::arithmetic::power2::lemma2_to64();
    lemma_pow2_pos(32 * i);
    lemma_pow2_adds(32, 32 * i);
    assert(32 * (i + 1) == 32 + 32 * i);
}

proof fn lemma_natural_bound(limbs: Seq<u32>)
    ensures
        natural(limbs) < weight(limbs.len()),
    decreases limbs.len(),
{
    lemma_weight(0);
    if limbs.len() > 0 {
        let i = (limbs.len() - 1) as nat;
        lemma_natural_bound(limbs.drop_last());
        lemma_weight(i);
        let top = limbs.last() as nat;
        let w = weight(i);
        assert(top * w + w <= 0x1_0000_0000 * w) by (nonlinear_arith)
            requires
                top < 0x1_0000_0000,
        ;
    }
}

proof fn lemma_natural_push(limbs: Seq<u32>, x: u32)
    ensures
        natural(limbs.push(x)) == natural(limbs) + x as nat * weight(limbs.len()),
{
    assert(limbs.push(x).drop_last() =~= limbs);
}

proof fn lemma_natural_take(limbs: Seq<u32>, i: int)
    requires
        0 <= i < limbs.len(),
    ensures
        natural(limbs.take(i + 1)) == natural(limbs.take(i)) + limbs[i] as nat * weight(i as nat),
{
    assert(limbs.take(i + 1) =~= limbs.take(i).push(limbs[i]));
    lemma_natural_push(limbs.take(i), limbs[i]);
}

/// `limbs * factor + addend`.
pub fn scale(limbs: &Vec<u32>, factor: u64, addend: u64) -> (out: Vec<u32>)
    ensures
        natural(out@) == natural(limbs@) * factor + addend,
{
    let mut out: Vec<u32> = Vec::new();
    let mut carry: u128 = addend as u128;
    let mut i: usize = 0;
    proof {
        lemma_weight(0);
        assert(limbs@.take(0) =~= Seq::<u32>::empty());
        assert(0 * factor == 0) by (nonlinear_arith);
        assert(carry * 1 == carry);
    }
    while i < limbs.len()
        invariant
            i <= limbs.len(),
            out.len() == i,
            carry <= 0xffff_ffff_ffff_ffff,
            natural(out@) + carry * weight(i as nat) == natural(limbs@.take(i as int)) * factor
                + addend,
        decreases limbs.len() - i,
    {
        let limb = limbs[i];
        proof {
            assert(limb * factor <= 0xffff_ffff * 0xffff_ffff_ffff_ffff) by (nonlinear_arith)
                requires
                    limb <= 0xffff_ffff,
                    factor <= 0xffff_ffff_ffff_ffff,
            ;
        }
        let acc: u128 = limb as u128 * factor as u128 + carry;
        let low: u32 = (acc % 0x1_0000_0000) as u32;
        let ghost before = out@;
        out.push(low);
        proof {
            let w = weight(i as nat);
            lemma_weight(i as nat);
            lemma_natural_push(before, low);
            lemma_natural_take(limbs@, i as int);
            let high = acc / 0x1_0000_0000;
            let a = natural(limbs@.take(i as int));
            assert(low * w + high * (0x1_0000_0000 * w) == acc * w) by (nonlinear_arith)
                requires
                    acc == 0x1_0000_0000 * high + low,
            ;
            assert(acc * w == (limb * w) * factor + carry * w) by (nonlinear_arith)
                requires
                    acc == limb * factor + carry,
            ;
            assert((a + limb * w) * factor == a * factor + (limb * w) * factor)
                by (nonlinear_arith);
        }
        carry = acc / 0x1_0000_0000;
        i = i + 1;
    }
    proof {
        assert(limbs@.take(i as int) =~= limbs@);
    }
    while carry > 0
        invariant
            carry <= 0xffff_ffff_ffff_ffff,
            natural(out@) + carry * weight(out@.len()) == natural(limbs@) * factor + addend,
        decreases carry,
    {
        let low: u32 = (carry % 0x1_0000_0000) as u32;
        let ghost before = out@;
        out.push(low);
        proof {
            let w = weight(before.len());
            lemma_weight(before.len());
            lemma_natural_push(before, low);
            let high = carry / 0x1_0000_0000;
            assert(low * w + high * (0x1_0000_0000 * w) == carry * w) by (nonlinear_arith)
                requires
                    carry == 0x1_0000_0000 * high + low,
            ;
        }
        carry = carry / 0x1_0000_0000;
    }
    proof {
        assert(0 * weight(out@.len()) == 0) by (nonlinear_arith);
    }
    out
}

/// `limbs * 2^places`.
pub fn shift(limbs: &Vec<u32>, places: u32) -> (out: Vec<u32>)
    ensures
        natural(out@) == natural(limbs@) * pow2(places as nat),
{
    let whole: u32 = places / 32;
    let part: u32 = places % 32;
    let mut factor: u64 = 1;
    let mut j: u32 = 0;
    proof {
        vstd::arithmetic::power2::lemma2_to64();
    }
    while j < part
        invariant
            j <= part < 32,
            factor == pow2(j as nat),
            factor <= 0x1_0000_0000,
        decreases part - j,
    {
        proof {
            vstd::arithmetic::power2::lemma_pow2_unfold((j + 1) as nat);
            vstd::arithmetic::power2::lemma2_to64();
            if j + 1 < 32 {
                vstd::arithmetic::power2::lemma_pow2_strictly_increases((j + 1) as nat, 32);
            }
        }
        factor = factor * 2;
        j = j + 1;
    }
    let scaled = scale(limbs, factor, 0);
    let mut out: Vec<u32> = Vec::new();
    let mut i: u32 = 0;
    while i < whole
        invariant
            i <= whole,
            out.len() == i,
            natural(out@) == 0,
        decreases whole - i,
    {
        proof {
            lemma_natural_push(out@, 0);
            assert(0 * weight(out@.len()) == 0) by (nonlinear_arith);
        }
        out.push(0);
        i = i + 1;
    }
    let mut k: usize = 0;
    let ghost base = weight(whole as nat);
    proof {
        assert(scaled@.take(0) =~= Seq::<u32>::empty());
        assert(0 * base == 0) by (nonlinear_arith);
    }
    while k < scaled.len()
        invariant
            k <= scaled.len(),
            out@.len() == whole + k,
            base == weight(whole as nat),
            natural(out@) == natural(scaled@.take(k as int)) * base,
        decreases scaled.len() - k,
    {
        let limb = scaled[k];
        proof {
            lemma_natural_push(out@, limb);
            lemma_natural_take(scaled@, k as int);
            lemma_pow2_adds(32 * (whole as nat), 32 * (k as nat));
            assert(32 * (whole as nat) + 32 * (k as nat) == 32 * out@.len());
            let a = natural(scaled@.take(k as int));
            let w = weight(k as nat);
            assert((a + limb * w) * base == a * base + limb * (base * w)) by (nonlinear_arith);
        }
        out.push(limb);
        k = k + 1;
    }
    proof {
        assert(scaled@.take(k as int) =~= scaled@);
        lemma_pow2_adds(32 * (whole as nat), part as nat);
        assert(32 * (whole as nat) + part as nat == places as nat);
        let a = natural(limbs@);
        assert((a * factor) * base == a * (base * factor)) by (nonlinear_arith);
    }
    out
}

/// How two naturals compare.
pub enum Comparison {
    Below,
    Same,
    Above,
}

pub open spec fn compares(c: Comparison, a: nat, b: nat) -> bool {
    match c {
        Comparison::Below => a < b,
        Comparison::Same => a == b,
        Comparison::Above => a > b,
    }
}

fn limb_at(limbs: &Vec<u32>, i: usize) -> (x: u32)
    ensures
        x == if i < limbs@.len() {
            limbs@[i as int]
        } else {
            0
        },
{
    if i < limbs.len() {
        limbs[i]
    } else {
        0
    }
}

/// The natural of the first `i` limbs, with zeros past the end.
spec fn natural_prefix(limbs: Seq<u32>, i: int) -> nat {
    natural(limbs.take(if i < limbs.len() { i } else { limbs.len() as int }))
}

proof fn lemma_natural_prefix(limbs: Seq<u32>, i: int)
    requires
        0 <= i,
    ensures
        natural_prefix(limbs, 0) == 0,
        i >= limbs.len() ==> natural_prefix(limbs, i) == natural(limbs),
        natural_prefix(limbs, i) < weight(i as nat),
        natural_prefix(limbs, i + 1) == natural_prefix(limbs, i) + (if i < limbs.len() {
            limbs[i] as nat
        } else {
            0
        }) * weight(i as nat),
{
    assert(limbs.take(limbs.len() as int) =~= limbs);
    assert(limbs.take(0) =~= Seq::<u32>::empty());
    if i < limbs.len() {
        lemma_natural_take(limbs, i);
        lemma_natural_bound(limbs.take(i));
    } else {
        lemma_natural_bound(limbs);
        assert(0 * weight(i as nat) == 0) by (nonlinear_arith);
        if i > limbs.len() {
            vstd::arithmetic::power2::lemma_pow2_strictly_increases(32 * limbs.len(), (32 * i) as nat);
        }
    }
}

/// Compares two naturals.
pub fn compare(a: &Vec<u32>, b: &Vec<u32>) -> (c: Comparison)
    ensures
        compares(c, natural(a@), natural(b@)),
{
    let n: usize = if a.len() < b.len() {
        b.len()
    } else {
        a.len()
    };
    let mut c = Comparison::Same;
    let mut i: usize = 0;
    proof {
        lemma_natural_prefix(a@, 0);
        lemma_natural_prefix(b@, 0);
    }
    while i < n
        invariant
            i <= n,
            compares(c, natural_prefix(a@, i as int), natural_prefix(b@, i as int)),
        decreases n - i,
    {
        let x = limb_at(a, i);
        let y = limb_at(b, i);
        proof {
            lemma_natural_prefix(a@, i as int);
            lemma_natural_prefix(b@, i as int);
            let w = weight(i as nat);
            if x < y {
                assert(x * w + w <= y * w) by (nonlinear_arith)
                    requires
                        x + 1 <= y,
                ;
            } else if y < x {
                assert(y * w + w <= x * w) by (nonlinear_arith)
                    requires
                        y + 1 <= x,
                ;
            }
        }
        if x < y {
            c = Comparison::Below;
        } else if y < x {
            c = Comparison::Above;
        }
        i = i + 1;
    }
    proof {
        lemma_natural_prefix(a@, n as int);
        lemma_natural_prefix(b@, n as int);
    }
    c
}

} // verus!
