//! Natural numbers of any size: what exact decimal-to-binary rounding needs.
use vstd::arithmetic::power::{lemma_pow_positive, pow};
use vstd::prelude::*;

verus! {

/// The weight of the limb at position `i`.
spec fn weight(i: nat) -> nat {
    pow(0x1_0000_0000, i) as nat
}

/// The limb at position `i`, zero beyond the end.
spec fn limb(limbs: Seq<u32>, i: nat) -> nat {
    if i < limbs.len() {
        limbs[i as int] as nat
    } else {
        0
    }
}

/// What the `n` lowest limbs stand for.
spec fn prefix(limbs: Seq<u32>, n: nat) -> nat
    decreases n,
{
    if n == 0 {
        0
    } else {
        prefix(limbs, (n - 1) as nat) + limb(limbs, (n - 1) as nat) * weight((n - 1) as nat)
    }
}

proof fn lemma_weight(i: nat)
    ensures
        weight(0) == 1,
        weight(i) > 0,
        weight(i + 1) == 0x1_0000_0000 * weight(i),
{
    reveal(pow);
    lemma_pow_positive(0x1_0000_0000, i);
    lemma_pow_positive(0x1_0000_0000, i + 1);
}

proof fn lemma_weight_increases(i: nat, j: nat)
    requires
        i <= j,
    ensures
        weight(i) <= weight(j),
    decreases j,
{
    if i < j {
        lemma_weight_increases(i, (j - 1) as nat);
        lemma_weight((j - 1) as nat);
    }
}

proof fn lemma_prefix_bound(limbs: Seq<u32>, n: nat)
    ensures
        prefix(limbs, n) < weight(n),
    decreases n,
{
    lemma_weight(0);
    if n > 0 {
        let k = (n - 1) as nat;
        lemma_prefix_bound(limbs, k);
        lemma_weight(k);
        let w = weight(k);
        let l = limb(limbs, k);
        assert(l * w + w <= 0x1_0000_0000 * w) by (nonlinear_arith)
            requires
                l < 0x1_0000_0000,
        ;
    }
}

proof fn lemma_prefix_same(a: Seq<u32>, b: Seq<u32>, n: nat)
    requires
        forall|i: nat| i < n ==> limb(a, i) == limb(b, i),
    ensures
        prefix(a, n) == prefix(b, n),
    decreases n,
{
    if n > 0 {
        lemma_prefix_same(a, b, (n - 1) as nat);
    }
}

proof fn lemma_prefix_beyond(limbs: Seq<u32>, n: nat)
    requires
        n >= limbs.len(),
    ensures
        prefix(limbs, n) == prefix(limbs, limbs.len()),
    decreases n,
{
    if n > limbs.len() {
        lemma_prefix_beyond(limbs, (n - 1) as nat);
        assert(0 * weight((n - 1) as nat) == 0) by (nonlinear_arith);
    }
}

/// A value below the weight of position `n` has no limb set from there on.
proof fn lemma_prefix_short(limbs: Seq<u32>, n: nat, m: nat)
    requires
        n <= m,
        prefix(limbs, m) < weight(n),
    ensures
        prefix(limbs, m) == prefix(limbs, n),
    decreases m,
{
    if n < m {
        let k = (m - 1) as nat;
        lemma_weight(k);
        lemma_weight_increases(n, k);
        let l = limb(limbs, k);
        let w = weight(k);
        assert((l > 0 ==> l * w >= w) && (l == 0 ==> l * w == 0)) by (nonlinear_arith)
            requires
                w > 0,
        ;
        lemma_prefix_short(limbs, n, k);
    }
}

/// The highest position at which two numbers differ decides which is larger.
proof fn lemma_prefix_decides(a: Seq<u32>, b: Seq<u32>, i: nat, n: nat)
    requires
        i < n,
        limb(a, i) < limb(b, i),
        forall|j: nat| i < j < n ==> limb(a, j) == limb(b, j),
    ensures
        prefix(a, n) < prefix(b, n),
    decreases n,
{
    let k = (n - 1) as nat;
    if i == k {
        lemma_prefix_bound(a, k);
        let w = weight(k);
        let la = limb(a, k);
        let lb = limb(b, k);
        assert(la * w + w <= lb * w) by (nonlinear_arith)
            requires
                la + 1 <= lb,
        ;
    } else {
        lemma_prefix_decides(a, b, i, k);
    }
}

/// A natural number.
pub struct BigNat {
    /// Digits in base 2^32, lowest first.
    limbs: Vec<u32>,
}

impl View for BigNat {
    type V = nat;

    closed spec fn view(&self) -> nat {
        prefix(self.limbs@, self.limbs@.len())
    }
}

impl BigNat {
    /// The number `n`.
    pub fn from_u64(n: u64) -> (result: BigNat)
        ensures
            result@ == n,
    {
        let low: u32 = (n % 0x1_0000_0000) as u32;
        let high: u32 = (n / 0x1_0000_0000) as u32;
        let mut limbs: Vec<u32> = Vec::new();
        limbs.push(low);
        limbs.push(high);
        proof {
            lemma_weight(0);
            reveal_with_fuel(prefix, 3);
            assert(limb(limbs@, 0) == low && limb(limbs@, 1) == high);
            assert(low * weight(0) == low && high * weight(1) == high * 0x1_0000_0000)
                by (nonlinear_arith)
                requires
                    weight(0) == 1,
                    weight(1) == 0x1_0000_0000,
            ;
        }
        BigNat { limbs }
    }

    /// Replaces the number by `factor` times itself plus `addend`.
    pub fn mul_add(&mut self, factor: u32, addend: u32)
        ensures
            final(self)@ == old(self)@ * factor + addend,
    {
        let ghost before = self.limbs@;
        let n: usize = self.limbs.len();
        let mut carry: u32 = addend;
        let mut i: usize = 0;
        proof {
            lemma_weight(0);
            assert(0 * factor == 0);
        }
        while i < n
            invariant
                i <= n,
                n == self.limbs.len(),
                n == before.len(),
                forall|j: int| i <= j < n ==> self.limbs@[j] == before[j],
                prefix(self.limbs@, i as nat) + weight(i as nat) * carry == prefix(before, i as nat)
                    * factor + addend,
            decreases n - i,
        {
            let ghost earlier = self.limbs@;
            let x: u32 = self.limbs[i];
            assert(x * factor <= 0xffff_ffff * 0xffff_ffff) by (nonlinear_arith)
                requires
                    x <= 0xffff_ffff,
                    factor <= 0xffff_ffff,
            ;
            let t: u64 = x as u64 * factor as u64 + carry as u64;
            let low: u32 = (t % 0x1_0000_0000) as u32;
            let high: u32 = (t / 0x1_0000_0000) as u32;
            self.limbs[i] = low;
            proof {
                lemma_prefix_same(self.limbs@, earlier, i as nat);
                lemma_weight(i as nat);
                let w = weight(i as nat);
                let p = prefix(before, i as nat);
                assert(limb(self.limbs@, i as nat) == low);
                assert(limb(before, i as nat) == x);
                assert(low * w + 0x1_0000_0000 * w * high == w * (x * factor) + w * carry)
                    by (nonlinear_arith)
                    requires
                        x * factor + carry == low + 0x1_0000_0000 * high,
                ;
                assert((p + x * w) * factor == p * factor + w * (x * factor)) by (nonlinear_arith);
            }
            carry = high;
            i = i + 1;
        }
        if carry != 0 {
            let ghost earlier = self.limbs@;
            self.limbs.push(carry);
            proof {
                lemma_prefix_same(self.limbs@, earlier, n as nat);
                assert(limb(self.limbs@, n as nat) == carry);
                assert(weight(n as nat) * carry == carry * weight(n as nat)) by (nonlinear_arith);
            }
        } else {
            assert(weight(n as nat) * 0 == 0);
        }
    }

    /// Multiplies the number by `base` to the power `exponent`.
    pub fn mul_pow(&mut self, base: u32, exponent: u128)
        ensures
            final(self)@ == old(self)@ * pow(base as int, exponent as nat),
    {
        let ghost before = self@;
        let mut i: u128 = 0;
        proof {
            reveal(pow);
        }
        while i < exponent
            invariant
                i <= exponent,
                self@ == before * pow(base as int, i as nat),
            decreases exponent - i,
        {
            self.mul_add(base, 0);
            i = i + 1;
            proof {
                reveal(pow);
                let p = pow(base as int, (i - 1) as nat);
                assert(before * p * base == before * (base * p)) by (nonlinear_arith);
            }
        }
    }

    /// Whether the number is at least `other`.
    pub fn at_least(&self, other: &BigNat) -> (result: bool)
        ensures
            result == (self@ >= other@),
    {
        let n: usize = if self.limbs.len() < other.limbs.len() {
            other.limbs.len()
        } else {
            self.limbs.len()
        };
        proof {
            lemma_prefix_beyond(self.limbs@, n as nat);
            lemma_prefix_beyond(other.limbs@, n as nat);
        }
        let mut i: usize = n;
        while i > 0
            invariant
                i <= n,
                self@ == prefix(self.limbs@, n as nat),
                other@ == prefix(other.limbs@, n as nat),
                forall|j: nat| i <= j < n ==> limb(self.limbs@, j) == limb(other.limbs@, j),
            decreases i,
        {
            i = i - 1;
            let a: u32 = if i < self.limbs.len() {
                self.limbs[i]
            } else {
                0
            };
            let b: u32 = if i < other.limbs.len() {
                other.limbs[i]
            } else {
                0
            };
            if a < b {
                proof {
                    lemma_prefix_decides(self.limbs@, other.limbs@, i as nat, n as nat);
                }
                return false;
            }
            if b < a {
                proof {
                    lemma_prefix_decides(other.limbs@, self.limbs@, i as nat, n as nat);
                }
                return true;
            }
        }
        proof {
            lemma_prefix_same(self.limbs@, other.limbs@, n as nat);
        }
        true
    }

    /// Takes `other` away from the number.
    pub fn subtract(&mut self, other: &BigNat)
        requires
            other@ <= old(self)@,
        ensures
            final(self)@ == old(self)@ - other@,
    {
        let ghost before = self.limbs@;
        let n: usize = self.limbs.len();
        let mut borrow: u32 = 0;
        let mut i: usize = 0;
        proof {
            lemma_weight(0);
        }
        while i < n
            invariant
                i <= n,
                n == self.limbs.len(),
                n == before.len(),
                borrow <= 1,
                forall|j: int| i <= j < n ==> self.limbs@[j] == before[j],
                prefix(self.limbs@, i as nat) + prefix(other.limbs@, i as nat) == prefix(
                    before,
                    i as nat,
                ) + weight(i as nat) * borrow,
            decreases n - i,
        {
            let ghost earlier = self.limbs@;
            let a: u32 = self.limbs[i];
            let b: u32 = if i < other.limbs.len() {
                other.limbs[i]
            } else {
                0
            };
            let taken: u64 = b as u64 + borrow as u64;
            let next: u32 = if (a as u64) < taken {
                1
            } else {
                0
            };
            let difference: u32 = (a as u64 + next as u64 * 0x1_0000_0000 - taken) as u32;
            self.limbs[i] = difference;
            proof {
                lemma_prefix_same(self.limbs@, earlier, i as nat);
                lemma_weight(i as nat);
                let w = weight(i as nat);
                assert(limb(self.limbs@, i as nat) == difference);
                assert(limb(before, i as nat) == a);
                assert(limb(other.limbs@, i as nat) == b);
                assert(difference * w + b * w + w * borrow == a * w + 0x1_0000_0000 * w * next)
                    by (nonlinear_arith)
                    requires
                        difference + b + borrow == a + 0x1_0000_0000 * next,
                ;
            }
            borrow = next;
            i = i + 1;
        }
        proof {
            lemma_prefix_bound(before, n as nat);
            if other.limbs@.len() <= n {
                lemma_prefix_beyond(other.limbs@, n as nat);
            } else {
                lemma_prefix_short(other.limbs@, n as nat, other.limbs@.len());
            }
            lemma_prefix_bound(self.limbs@, n as nat);
            assert(weight(n as nat) * 0 == 0);
            assert(weight(n as nat) * 1 == weight(n as nat));
        }
    }
}

} // verus!
