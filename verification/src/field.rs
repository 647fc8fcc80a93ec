//! Arithmetic over the Goldilocks prime field.
//!
//! The modulus is `ORDER` = 2^64 - 2^32 + 1, chosen so that reduction after a
//! 128-bit product needs only a handful of 64-bit operations.  An element is
//! carried as a 64-bit representative that may be *weakly reduced* (anywhere
//! in `[0, 2^64)`); `to_canonical_u64` and equality always collapse it to the
//! canonical residue in `[0, ORDER)`.

use vstd::prelude::*;
use vstd::arithmetic::power::pow;
use vstd::arithmetic::div_mod::{
    lemma_fundamental_div_mod, lemma_mod_multiples_vanish, lemma_small_mod,
    lemma_add_mod_noop, lemma_sub_mod_noop, lemma_mul_mod_noop_general,
};

verus! {

/// The field order p = 2^64 - 2^32 + 1.
pub const ORDER: u64 = 0xFFFF_FFFF_0000_0001;

/// 2^32 - 1, the residue of 2^64 modulo `ORDER`.
pub const EPSILON: u64 = 0xFFFF_FFFF;

/// The exponent the `cube_root` chain raises its input to.
pub const CUBE_ROOT_EXPONENT: u64 = 0xAAAA_AAAA_4AAA_AAAB;

/// The multiplicative group's order is 2^32 times an odd number.
pub const TWO_ADICITY: usize = 32;

/// An element of the Goldilocks field, as a weakly reduced representative.
#[derive(Clone, Copy, Debug)]
pub struct GoldilocksField(pub u64);

/// Residue-level addition.
pub open spec fn fadd(x: int, y: int) -> int {
    (x + y) % (ORDER as int)
}

/// Residue-level subtraction.
pub open spec fn fsub(x: int, y: int) -> int {
    (x - y) % (ORDER as int)
}

/// Residue-level multiplication.
pub open spec fn fmul(x: int, y: int) -> int {
    (x * y) % (ORDER as int)
}

/// Residue-level negation.
pub open spec fn fneg(x: int) -> int {
    (0 - x) % (ORDER as int)
}

impl GoldilocksField {
    /// The mathematical residue this representative stands for.
    pub open spec fn as_elem(self) -> int {
        self.0 as int % (ORDER as int)
    }

    /// Exact value of `add`, branch for branch.
    pub open spec fn spec_add(self, rhs: Self) -> Self {
        let s = self.0 as int + rhs.0 as int;
        if s < 0x1_0000_0000_0000_0000 {
            GoldilocksField(s as u64)
        } else if s - 0x1_0000_0000_0000_0000 >= ORDER {
            GoldilocksField((s - 0x1_0000_0000_0000_0000 - ORDER) as u64)
        } else {
            GoldilocksField((s - ORDER) as u64)
        }
    }

    /// Exact value of `sub`.
    pub open spec fn spec_sub(self, rhs: Self) -> Self {
        let d = self.0 as int - rhs.as_elem();
        if d >= 0 {
            GoldilocksField(d as u64)
        } else {
            GoldilocksField((d + ORDER) as u64)
        }
    }

    /// Collapse to the canonical residue; a single conditional subtraction
    /// suffices because every representative is below 2 * `ORDER`.
    pub fn to_canonical_u64(&self) -> (r: u64)
        ensures
            r as int == self.as_elem(),
            r < ORDER,
    {
        let mut c = self.0;
        if c >= ORDER {
            c -= ORDER;
            proof {
                lemma_mod_multiples_vanish(-1, self.0 as int, ORDER as int);
                lemma_small_mod(c as nat, ORDER as nat);
            }
        } else {
            proof {
                lemma_small_mod(c as nat, ORDER as nat);
            }
        }
        c
    }

    /// Wrap a 64-bit value as a field element; the representative is kept as
    /// given and stands for its residue modulo `ORDER`.
    pub fn from_canonical_u64(n: u64) -> (r: Self)
        ensures
            r.0 == n,
            r.as_elem() == n as int % (ORDER as int),
    {
        GoldilocksField(n)
    }

    /// True exactly when the element is the additive identity.
    pub fn is_zero(&self) -> (r: bool)
        ensures
            r <==> self.as_elem() == 0,
    {
        self.to_canonical_u64() == 0
    }

    /// Modular addition.  The sum of the two representatives is reduced by
    /// `ORDER` exactly when it overflows 64 bits; this matches the residue
    /// whenever the representatives' sum is below 2^64 + `ORDER` (always the
    /// case when either side is canonical).
    pub fn add(self, rhs: Self) -> (r: Self)
        ensures
            r == self.spec_add(rhs),
            (self.0 as int + rhs.0 as int) < (0x1_0000_0000_0000_0000 + ORDER as int)
                ==> r.as_elem() == fadd(self.as_elem(), rhs.as_elem()),
    {
        let a = self.0;
        let b = rhs.0;
        if a <= u64::MAX - b {
            proof {
                lemma_add_mod_noop(a as int, b as int, ORDER as int);
            }
            GoldilocksField(a + b)
        } else {
            let s = a - (u64::MAX - b) - 1;
            if s >= ORDER {
                GoldilocksField(s - ORDER)
            } else {
                proof {
                    lemma_add_mod_noop(a as int, b as int, ORDER as int);
                    lemma_mod_multiples_vanish(-1, a as int + b as int, ORDER as int);
                    assert(s + EPSILON == a as int + b as int - ORDER as int);
                }
                GoldilocksField(s + EPSILON)
            }
        }
    }

    /// Modular subtraction; the subtrahend is canonicalized first, so the
    /// result is always congruent to the difference of the residues.
    pub fn sub(self, rhs: Self) -> (r: Self)
        ensures
            r == self.spec_sub(rhs),
            r.as_elem() == fsub(self.as_elem(), rhs.as_elem()),
    {
        let bc = rhs.to_canonical_u64();
        proof {
            lemma_small_mod(bc as nat, ORDER as nat);
            lemma_sub_mod_noop(self.0 as int, bc as int, ORDER as int);
        }
        if self.0 >= bc {
            GoldilocksField(self.0 - bc)
        } else {
            let d = self.0 + (ORDER - bc);
            proof {
                lemma_mod_multiples_vanish(1, self.0 as int - bc as int, ORDER as int);
            }
            GoldilocksField(d)
        }
    }

    /// Modular negation; zero stays zero, anything else becomes
    /// `ORDER - canonical(self)`.  The result is always canonical.
    pub fn neg(self) -> (r: Self)
        ensures
            r.as_elem() == fneg(self.as_elem()),
            r.0 < ORDER,
    {
        let c = self.to_canonical_u64();
        if c == 0 {
            proof {
                lemma_small_mod(0, ORDER as nat);
            }
            GoldilocksField(0)
        } else {
            proof {
                lemma_mod_multiples_vanish(1, 0 - self.as_elem(), ORDER as int);
                lemma_small_mod((ORDER - c) as nat, ORDER as nat);
            }
            GoldilocksField(ORDER - c)
        }
    }

    /// Modular multiplication through the fast 128-bit reduction.
    pub fn mul(self, rhs: Self) -> (r: Self)
        ensures
            r.as_elem() == fmul(self.as_elem(), rhs.as_elem()),
    {
        proof {
            lemma_mul_mod_noop_general(self.0 as int, rhs.0 as int, ORDER as int);
            vstd::arithmetic::mul::lemma_mul_upper_bound(
                self.0 as int, u64::MAX as int, rhs.0 as int, u64::MAX as int);
        }
        reduce128((self.0 as u128) * (rhs.0 as u128))
    }

    /// The element times itself.
    pub fn square(&self) -> (r: Self)
        ensures
            r.as_elem() == fmul(self.as_elem(), self.as_elem()),
    {
        self.mul(*self)
    }

    /// The element to the third power.
    pub fn cube(&self) -> (r: Self)
        ensures
            r.as_elem() == fmul(fmul(self.as_elem(), self.as_elem()), self.as_elem()),
    {
        self.mul(*self).mul(*self)
    }

    /// The additive identity.
    pub fn zero() -> (r: Self)
        ensures
            r.0 == 0,
    {
        GoldilocksField(0)
    }

    /// The multiplicative identity.
    pub fn one() -> (r: Self)
        ensures
            r.0 == 1,
    {
        GoldilocksField(1)
    }

    /// The element two.
    pub fn two() -> (r: Self)
        ensures
            r.0 == 2,
    {
        GoldilocksField(2)
    }

    /// Minus one: the order less one.
    pub fn neg_one() -> (r: Self)
        ensures
            r.0 == ORDER - 1,
    {
        GoldilocksField(ORDER - 1)
    }

    /// The multiplicative-group generator constant of this field's
    /// parameter set; only its value is pinned here.
    pub fn multiplicative_group_generator() -> (r: Self)
        ensures
            r.0 == 5,
    {
        GoldilocksField(5)
    }

    /// The two-adic generator constant of this field's parameter set;
    /// only its value is pinned here.
    pub fn power_of_two_generator() -> (r: Self)
        ensures
            r.0 == 10281950781551402419,
    {
        GoldilocksField(10281950781551402419)
    }
}

/// `d` divides `n`.
pub open spec fn divides(d: int, n: int) -> bool {
    exists|q: int| n == #[trigger] (d * q)
}

/// `a` and `b` share no divisor above 1.
pub open spec fn coprime(a: int, b: int) -> bool {
    forall|d: int| #![trigger divides(d, a), divides(d, b)]
        d >= 2 ==> !(divides(d, a) && divides(d, b))
}

/// The field order has no divisor strictly between 1 and itself.  The
/// statement is a closed formula about the fixed constant `ORDER`; it is
/// mathematically true, and contracts below promise success under it, so
/// nothing here takes it as an axiom.
pub open spec fn order_is_prime() -> bool {
    forall|d: int| 2 <= d < ORDER ==> !(#[trigger] divides(d, ORDER as int))
}

/// Halving one side keeps two numbers coprime: a divisor of the half
/// divides the whole.
proof fn lemma_coprime_after_halving(a: int, b: int)
    requires
        coprime(2 * a, b),
    ensures
        coprime(a, b),
{
    assert forall|d: int| d >= 2 implies !(divides(d, a) && divides(d, b)) by {
        if divides(d, a) && divides(d, b) {
            let q = choose|q: int| a == #[trigger] (d * q);
            assert(2 * a == d * (2 * q)) by (nonlinear_arith)
                requires a == d * q;
            assert(divides(d, 2 * a));
        }
    }
}

/// Subtracting one side from the other keeps two numbers coprime: a
/// divisor of the difference and of the subtrahend divides the whole.
proof fn lemma_coprime_after_subtracting(a: int, b: int)
    requires
        coprime(a, b),
    ensures
        coprime(a - b, b),
{
    assert forall|d: int| d >= 2 implies !(divides(d, a - b) && divides(d, b)) by {
        if divides(d, a - b) && divides(d, b) {
            let q1 = choose|q: int| a - b == #[trigger] (d * q);
            let q2 = choose|q: int| b == #[trigger] (d * q);
            assert(a == d * (q1 + q2)) by (nonlinear_arith)
                requires a - b == d * q1, b == d * q2;
            assert(divides(d, a));
        }
    }
}

/// Coprimality does not mind the order of its two sides.
proof fn lemma_coprime_symmetric(a: int, b: int)
    requires
        coprime(a, b),
    ensures
        coprime(b, a),
{
    assert forall|d: int| d >= 2 implies !(divides(d, b) && divides(d, a)) by {
        if divides(d, b) && divides(d, a) {
            assert(!(divides(d, a) && divides(d, b)));
        }
    }
}

/// For a prime order, every smaller positive number is coprime to it.
proof fn lemma_prime_coprime(x: int)
    requires
        order_is_prime(),
        1 <= x < ORDER,
    ensures
        coprime(x, ORDER as int),
{
    assert forall|d: int| d >= 2 implies !(divides(d, x) && divides(d, ORDER as int)) by {
        if divides(d, x) && divides(d, ORDER as int) {
            let q = choose|q: int| ORDER as int == #[trigger] (d * q);
            assert(q >= 1) by (nonlinear_arith)
                requires ORDER as int == d * q, d >= 2, ORDER as int > 0;
            assert(d <= ORDER) by (nonlinear_arith)
                requires ORDER as int == d * q, d >= 2, q >= 1;
            if d < ORDER {
                assert(!divides(d, ORDER as int));
            } else {
                let q2 = choose|q2: int| x == #[trigger] (d * q2);
                assert(q2 >= 1) by (nonlinear_arith)
                    requires x == d * q2, d >= 2, x >= 1;
                assert(x >= d) by (nonlinear_arith)
                    requires x == d * q2, d >= 2, q2 >= 1;
            }
        }
    }
}

impl GoldilocksField {
    /// Multiplicative inverse by binary extended gcd, `None` for zero.
    ///
    /// Four accumulators walk down: `u` and `v` carry the gcd computation,
    /// `b` and `c` the cofactors, with `b * x` congruent to `u` and `c * x`
    /// congruent to `v` throughout.  The loop exits through the collision
    /// branch only if `u` and `v` meet above 1, which would exhibit a
    /// nontrivial divisor of the order; the contract therefore owes `Some`
    /// for every nonzero element whenever the order is prime, which it is.
    pub fn try_inverse(&self) -> (r: Option<Self>)
        ensures
            self.as_elem() == 0 ==> r is None,
            r matches Some(inv) ==> inv.0 < ORDER
                && fmul(inv.as_elem(), self.as_elem()) == 1
                && self.as_elem() != 0,
            self.as_elem() != 0 && order_is_prime() ==> r is Some,
    {
        let x = self.to_canonical_u64();
        if x == 0 {
            return None;
        }
        proof {
            if order_is_prime() {
                lemma_prime_coprime(x as int);
            }
        }
        let mut u = x;
        let mut v = ORDER;
        let mut b: u64 = 1u64;
        let mut c: u64 = 0u64;
        proof {
            lemma_small_mod(u as nat, ORDER as nat);
            assert(ORDER as int % (ORDER as int) == 0) by {
                lemma_mod_multiples_vanish(1, 0, ORDER as int);
            }
        }
        while u != 1 && v != 1
            invariant
                1 <= u <= ORDER,
                1 <= v <= ORDER,
                b < ORDER,
                c < ORDER,
                1 <= x < ORDER,
                x as int == self.as_elem(),
                (b as int * x as int) % (ORDER as int) == (u as int) % (ORDER as int),
                (c as int * x as int) % (ORDER as int) == (v as int) % (ORDER as int),
                order_is_prime() ==> coprime(u as int, v as int),
            decreases u + v,
        {
            let ghost u_entry = u;
            let ghost v_entry = v;
            while u % 2 == 0
                invariant
                    1 <= u <= ORDER,
                    u <= u_entry,
                    b < ORDER,
                    1 <= x < ORDER,
                    (b as int * x as int) % (ORDER as int) == (u as int) % (ORDER as int),
                    order_is_prime() ==> coprime(u as int, v as int),
                decreases u,
            {
                let u_half = u / 2;
                let b_new = if b % 2 == 0 {
                    b / 2
                } else {
                    b / 2 + ORDER / 2 + 1
                };
                proof {
                    if b % 2 == 0 {
                        lemma_cofactor_halved(b_new as int, b as int, 0, x as int,
                            u_half as int, ORDER as int);
                    } else {
                        lemma_cofactor_halved(b_new as int, b as int, 1, x as int,
                            u_half as int, ORDER as int);
                    }
                    if order_is_prime() {
                        assert(u as int == 2 * (u_half as int));
                        lemma_coprime_after_halving(u_half as int, v as int);
                    }
                }
                u = u_half;
                b = b_new;
            }
            while v % 2 == 0
                invariant
                    1 <= v <= ORDER,
                    v <= v_entry,
                    c < ORDER,
                    1 <= x < ORDER,
                    (c as int * x as int) % (ORDER as int) == (v as int) % (ORDER as int),
                    order_is_prime() ==> coprime(u as int, v as int),
                decreases v,
            {
                let v_half = v / 2;
                let c_new = if c % 2 == 0 {
                    c / 2
                } else {
                    c / 2 + ORDER / 2 + 1
                };
                proof {
                    if c % 2 == 0 {
                        lemma_cofactor_halved(c_new as int, c as int, 0, x as int,
                            v_half as int, ORDER as int);
                    } else {
                        lemma_cofactor_halved(c_new as int, c as int, 1, x as int,
                            v_half as int, ORDER as int);
                    }
                    if order_is_prime() {
                        lemma_coprime_symmetric(u as int, v as int);
                        assert(v as int == 2 * (v_half as int));
                        lemma_coprime_after_halving(v_half as int, u as int);
                        lemma_coprime_symmetric(v_half as int, u as int);
                    }
                }
                v = v_half;
                c = c_new;
            }
            if u >= v {
                if u == v {
                    if u == 1 {
                        proof {
                            lemma_small_mod(1nat, ORDER as nat);
                            lemma_small_mod(b as nat, ORDER as nat);
                            vstd::arithmetic::div_mod::lemma_mul_mod_noop_left(
                                b as int, x as int, ORDER as int);
                        }
                        return Some(GoldilocksField(b));
                    }
                    proof {
                        if order_is_prime() {
                            assert(u as int == (u as int) * 1);
                            assert(divides(u as int, u as int));
                            assert(!(divides(u as int, u as int)
                                && divides(u as int, v as int)));
                            assert(false);
                        }
                    }
                    return None;
                }
                let b_new = if b >= c {
                    b - c
                } else {
                    b + (ORDER - c)
                };
                proof {
                    if b >= c {
                        lemma_cofactor_subtracted(b_new as int, b as int, c as int, 0,
                            x as int, u as int, v as int, ORDER as int);
                    } else {
                        lemma_cofactor_subtracted(b_new as int, b as int, c as int, 1,
                            x as int, u as int, v as int, ORDER as int);
                    }
                    if order_is_prime() {
                        lemma_coprime_after_subtracting(u as int, v as int);
                    }
                }
                u = u - v;
                b = b_new;
            } else {
                let c_new = if c >= b {
                    c - b
                } else {
                    c + (ORDER - b)
                };
                proof {
                    if c >= b {
                        lemma_cofactor_subtracted(c_new as int, c as int, b as int, 0,
                            x as int, v as int, u as int, ORDER as int);
                    } else {
                        lemma_cofactor_subtracted(c_new as int, c as int, b as int, 1,
                            x as int, v as int, u as int, ORDER as int);
                    }
                    if order_is_prime() {
                        lemma_coprime_symmetric(u as int, v as int);
                        lemma_coprime_after_subtracting(v as int, u as int);
                        lemma_coprime_symmetric(v as int - u as int, u as int);
                    }
                }
                v = v - u;
                c = c_new;
            }
        }
        let inv = if u == 1 {
            b
        } else {
            c
        };
        proof {
            lemma_small_mod(1nat, ORDER as nat);
            lemma_small_mod(inv as nat, ORDER as nat);
            vstd::arithmetic::div_mod::lemma_mul_mod_noop_left(
                inv as int, x as int, ORDER as int);
        }
        Some(GoldilocksField(inv))
    }

    /// Division: the dividend times the divisor's inverse.  An inverse is
    /// owed for every nonzero divisor of a prime order, so under
    /// `order_is_prime` the quotient times the divisor gives back the
    /// dividend; the fallback arm is unreachable then.
    pub fn div(self, rhs: Self) -> (r: Self)
        requires
            rhs.as_elem() != 0,
        ensures
            order_is_prime() ==> fmul(r.as_elem(), rhs.as_elem()) == self.as_elem(),
    {
        match rhs.try_inverse() {
            Some(inv) => {
                proof {
                    lemma_mul_associative(self.as_elem(), inv.as_elem(), rhs.as_elem());
                    lemma_mul_one(self.as_elem());
                    vstd::arithmetic::div_mod::lemma_mod_twice(
                        self.0 as int, ORDER as int);
                }
                self.mul(inv)
            },
            None => {
                // A nonzero divisor without an inverse exhibits a composite
                // order; the contract asks nothing of this arm.
                GoldilocksField(0)
            },
        }
    }
}

/// From `2a` and `2b` congruent modulo an odd modulus, `a` and `b` are too.
proof fn lemma_two_mod_cancel(a: int, b: int, m: int)
    requires
        m > 0,
        m % 2 == 1,
        (2 * a) % m == (2 * b) % m,
    ensures
        a % m == b % m,
{
    lemma_sub_mod_noop(2 * a, 2 * b, m);
    lemma_small_mod(0nat, m as nat);
    let d = a - b;
    assert((2 * d) % m == 0);
    lemma_fundamental_div_mod(2 * d, m);
    let k = (2 * d) / m;
    assert(2 * d == m * k);
    lemma_fundamental_div_mod(k, 2);
    if k % 2 == 0 {
        let h = k / 2;
        assert(d == m * h) by (nonlinear_arith)
            requires 2 * d == m * k, k == 2 * h;
        lemma_mod_multiples_vanish(h, b, m);
    } else {
        let mh = m / 2;
        let kh = k / 2;
        lemma_fundamental_div_mod(m, 2);
        assert(m * k == 2 * (2 * mh * kh + mh + kh) + 1) by (nonlinear_arith)
            requires m == 2 * mh + 1, k == 2 * kh + 1;
        assert(false);
    }
}

/// One halving step of the inverse loop keeps the cofactor congruence:
/// if `2 * bn == bo + delta * m` and `bo * x` is congruent to `2 * un`,
/// then `bn * x` is congruent to `un`.
proof fn lemma_cofactor_halved(bn: int, bo: int, delta: int, x: int, un: int, m: int)
    requires
        m > 2,
        m % 2 == 1,
        2 * bn == bo + delta * m,
        (bo * x) % m == (2 * un) % m,
    ensures
        (bn * x) % m == un % m,
{
    assert(2 * (bn * x) == m * (delta * x) + bo * x) by (nonlinear_arith)
        requires 2 * bn == bo + delta * m;
    lemma_mod_multiples_vanish(delta * x, bo * x, m);
    assert((2 * (bn * x)) % m == (2 * un) % m);
    lemma_two_mod_cancel(bn * x, un, m);
}

/// One subtraction step keeps the cofactor congruence: if
/// `bn == bo - co + delta * m`, `bo * x` is congruent to `uo` and
/// `co * x` to `vo`, then `bn * x` is congruent to `uo - vo`.
proof fn lemma_cofactor_subtracted(
    bn: int, bo: int, co: int, delta: int, x: int, uo: int, vo: int, m: int,
)
    requires
        m > 2,
        bn == bo - co + delta * m,
        (bo * x) % m == uo % m,
        (co * x) % m == vo % m,
    ensures
        (bn * x) % m == (uo - vo) % m,
{
    assert(bn * x == m * (delta * x) + (bo * x - co * x)) by (nonlinear_arith)
        requires bn == bo - co + delta * m;
    lemma_mod_multiples_vanish(delta * x, bo * x - co * x, m);
    lemma_sub_mod_noop(bo * x, co * x, m);
    lemma_sub_mod_noop(uo, vo, m);
}

impl PartialEq for GoldilocksField {
    /// Equality compares canonical residues, so weakly reduced
    /// representatives of one residue are equal.
    fn eq(&self, other: &Self) -> (r: bool) {
        self.to_canonical_u64() == other.to_canonical_u64()
    }
}

impl Eq for GoldilocksField {

}

impl vstd::std_specs::cmp::PartialEqSpecImpl for GoldilocksField {
    open spec fn obeys_eq_spec() -> bool {
        true
    }

    open spec fn eq_spec(&self, other: &Self) -> bool {
        self.as_elem() == other.as_elem()
    }
}

/// Split a 128-bit value into its low and high 64-bit halves.
pub fn split(x: u128) -> (r: (u64, u64))
    ensures
        x as int == r.0 + 0x1_0000_0000_0000_0000 * r.1,
        r.1 < 0x1_0000_0000_0000_0000,
{
    proof {
        lemma_fundamental_div_mod(x as int, 0x1_0000_0000_0000_0000);
        vstd::arithmetic::div_mod::lemma_multiply_divide_lt(
            x as int, 0x1_0000_0000_0000_0000, 0x1_0000_0000_0000_0000);
    }
    (
        (x % 0x1_0000_0000_0000_0000) as u64,
        (x / 0x1_0000_0000_0000_0000) as u64,
    )
}

/// Reduce a 128-bit value to a 64-bit representative of the same residue.
/// Writing x = hi * 2^64 + lo and hi = hihi * 2^32 + hilo, the residue of x
/// equals that of lo + hilo * (2^32 - 1) - hihi, because 2^64 is congruent to
/// 2^32 - 1 and 2^96 to -1.  The result may be weakly reduced.
pub fn reduce128(x: u128) -> (r: GoldilocksField)
    ensures
        r.as_elem() == x as int % (ORDER as int),
{
    let (lo, hi) = split(x);
    let hihi = hi / 0x1_0000_0000;
    let hilo = hi % 0x1_0000_0000;
    proof {
        lemma_fundamental_div_mod(hi as int, 0x1_0000_0000);
        lemma_goldilocks_reduction(lo as int, hihi as int, hilo as int);
    }
    let t0 = if lo >= hihi {
        lo - hihi
    } else {
        lo + (ORDER - hihi)
    };
    proof {
        if lo < hihi {
            lemma_mod_multiples_vanish(1, lo as int - hihi as int, ORDER as int);
        }
        assert(t0 as int % (ORDER as int) == (lo as int - hihi as int) % (ORDER as int));
    }
    let t1 = hilo * EPSILON;
    proof {
        lemma_add_mod_noop(t0 as int, t1 as int, ORDER as int);
        assert((lo as int - hihi as int) % (ORDER as int) + (t1 as int) % (ORDER as int)
            == t0 as int % (ORDER as int) + t1 as int % (ORDER as int));
        lemma_add_mod_noop(lo as int - hihi as int, t1 as int, ORDER as int);
    }
    if t0 <= u64::MAX - t1 {
        GoldilocksField(t0 + t1)
    } else {
        let s = t0 - (u64::MAX - t1) - 1;
        proof {
            lemma_mod_multiples_vanish(-1, t0 as int + t1 as int, ORDER as int);
            assert(s + EPSILON == t0 as int + t1 as int - ORDER as int);
        }
        GoldilocksField(s + EPSILON)
    }
}

/// The residue of hihi * 2^96 + hilo * 2^64 + lo equals that of
/// lo + hilo * (2^32 - 1) - hihi.
proof fn lemma_goldilocks_reduction(lo: int, hihi: int, hilo: int)
    ensures
        ((hihi * 0x1_0000_0000 + hilo) * 0x1_0000_0000_0000_0000 + lo) % (ORDER as int)
            == (lo + hilo * (EPSILON as int) - hihi) % (ORDER as int),
{
    assert((hihi * 0x1_0000_0000 + hilo) * 0x1_0000_0000_0000_0000 + lo
        == (ORDER as int) * (hihi * 0x1_0000_0000 + hihi + hilo)
            + (lo + hilo * (EPSILON as int) - hihi));
    lemma_mod_multiples_vanish(
        hihi * 0x1_0000_0000 + hihi + hilo,
        lo + hilo * (EPSILON as int) - hihi,
        ORDER as int,
    );
}


impl GoldilocksField {
    /// The fixed square-and-multiply chain for `cube_root`: the result is
    /// the input raised to `CUBE_ROOT_EXPONENT`, the exponent whose bit
    /// pattern the chain's structure encodes.  The chain is reproduced
    /// operation for operation; no general exponentiation routine computes
    /// the same sequence.
    pub fn cube_root(&self) -> (r: Self)
        ensures
            r.as_elem() == pow(self.as_elem(), CUBE_ROOT_EXPONENT as nat) % (ORDER as int),
    {
        let ghost s = self.as_elem();
        let x0 = *self;
        proof {
            vstd::arithmetic::power::lemma_pow1(s);
            lemma_small_mod(s as nat, ORDER as nat);
            assert(x0.as_elem() == pow(s, 1) % (ORDER as int));
        }
        let x1 = x0.square();
        proof { lemma_pow_mod_mul(s, 1, 1); }
        assert(x1.as_elem() == pow(s, 2) % (ORDER as int));
        let x2 = x1.square();
        proof { lemma_pow_mod_mul(s, 2, 2); }
        assert(x2.as_elem() == pow(s, 4) % (ORDER as int));
        let x3 = x2.mul(x0);
        proof { lemma_pow_mod_mul(s, 4, 1); }
        assert(x3.as_elem() == pow(s, 5) % (ORDER as int));
        let x4 = x3.square();
        proof { lemma_pow_mod_mul(s, 5, 5); }
        assert(x4.as_elem() == pow(s, 10) % (ORDER as int));
        let x5 = x4.square();
        proof { lemma_pow_mod_mul(s, 10, 10); }
        assert(x5.as_elem() == pow(s, 20) % (ORDER as int));
        let x7 = x5.square();
        proof { lemma_pow_mod_mul(s, 20, 20); }
        assert(x7.as_elem() == pow(s, 40) % (ORDER as int));
        let x8 = x7.square();
        proof { lemma_pow_mod_mul(s, 40, 40); }
        assert(x8.as_elem() == pow(s, 80) % (ORDER as int));
        let x9 = x8.square();
        proof { lemma_pow_mod_mul(s, 80, 80); }
        assert(x9.as_elem() == pow(s, 160) % (ORDER as int));
        let x10 = x9.square();
        proof { lemma_pow_mod_mul(s, 160, 160); }
        assert(x10.as_elem() == pow(s, 320) % (ORDER as int));
        let x11 = x10.mul(x5);
        proof { lemma_pow_mod_mul(s, 320, 20); }
        assert(x11.as_elem() == pow(s, 340) % (ORDER as int));
        let x12 = x11.square();
        proof { lemma_pow_mod_mul(s, 340, 340); }
        assert(x12.as_elem() == pow(s, 680) % (ORDER as int));
        let x13 = x12.square();
        proof { lemma_pow_mod_mul(s, 680, 680); }
        assert(x13.as_elem() == pow(s, 1360) % (ORDER as int));
        let x14 = x13.square();
        proof { lemma_pow_mod_mul(s, 1360, 1360); }
        assert(x14.as_elem() == pow(s, 2720) % (ORDER as int));
        let x16 = x14.square();
        proof { lemma_pow_mod_mul(s, 2720, 2720); }
        assert(x16.as_elem() == pow(s, 5440) % (ORDER as int));
        let x17 = x16.square();
        proof { lemma_pow_mod_mul(s, 5440, 5440); }
        assert(x17.as_elem() == pow(s, 10880) % (ORDER as int));
        let x18 = x17.square();
        proof { lemma_pow_mod_mul(s, 10880, 10880); }
        assert(x18.as_elem() == pow(s, 21760) % (ORDER as int));
        let x19 = x18.square();
        proof { lemma_pow_mod_mul(s, 21760, 21760); }
        assert(x19.as_elem() == pow(s, 43520) % (ORDER as int));
        let x20 = x19.square();
        proof { lemma_pow_mod_mul(s, 43520, 43520); }
        assert(x20.as_elem() == pow(s, 87040) % (ORDER as int));
        let x21 = x20.mul(x11);
        proof { lemma_pow_mod_mul(s, 87040, 340); }
        assert(x21.as_elem() == pow(s, 87380) % (ORDER as int));
        let x22 = x21.square();
        proof { lemma_pow_mod_mul(s, 87380, 87380); }
        assert(x22.as_elem() == pow(s, 174760) % (ORDER as int));
        let x23 = x22.square();
        proof { lemma_pow_mod_mul(s, 174760, 174760); }
        assert(x23.as_elem() == pow(s, 349520) % (ORDER as int));
        let x24 = x23.square();
        proof { lemma_pow_mod_mul(s, 349520, 349520); }
        assert(x24.as_elem() == pow(s, 699040) % (ORDER as int));
        let x25 = x24.square();
        proof { lemma_pow_mod_mul(s, 699040, 699040); }
        assert(x25.as_elem() == pow(s, 1398080) % (ORDER as int));
        let x26 = x25.square();
        proof { lemma_pow_mod_mul(s, 1398080, 1398080); }
        assert(x26.as_elem() == pow(s, 2796160) % (ORDER as int));
        let x27 = x26.square();
        proof { lemma_pow_mod_mul(s, 2796160, 2796160); }
        assert(x27.as_elem() == pow(s, 5592320) % (ORDER as int));
        let x28 = x27.square();
        proof { lemma_pow_mod_mul(s, 5592320, 5592320); }
        assert(x28.as_elem() == pow(s, 11184640) % (ORDER as int));
        let x29 = x28.square();
        proof { lemma_pow_mod_mul(s, 11184640, 11184640); }
        assert(x29.as_elem() == pow(s, 22369280) % (ORDER as int));
        let x30 = x29.square();
        proof { lemma_pow_mod_mul(s, 22369280, 22369280); }
        assert(x30.as_elem() == pow(s, 44738560) % (ORDER as int));
        let x31 = x30.square();
        proof { lemma_pow_mod_mul(s, 44738560, 44738560); }
        assert(x31.as_elem() == pow(s, 89477120) % (ORDER as int));
        let x32 = x31.square();
        proof { lemma_pow_mod_mul(s, 89477120, 89477120); }
        assert(x32.as_elem() == pow(s, 178954240) % (ORDER as int));
        let x33 = x32.mul(x14);
        proof { lemma_pow_mod_mul(s, 178954240, 2720); }
        assert(x33.as_elem() == pow(s, 178956960) % (ORDER as int));
        let x34 = x33.mul(x3);
        proof { lemma_pow_mod_mul(s, 178956960, 5); }
        assert(x34.as_elem() == pow(s, 178956965) % (ORDER as int));
        let x35 = x34.square();
        proof { lemma_pow_mod_mul(s, 178956965, 178956965); }
        assert(x35.as_elem() == pow(s, 357913930) % (ORDER as int));
        let x36 = x35.mul(x34);
        proof { lemma_pow_mod_mul(s, 357913930, 178956965); }
        assert(x36.as_elem() == pow(s, 536870895) % (ORDER as int));
        let x37 = x36.mul(x5);
        proof { lemma_pow_mod_mul(s, 536870895, 20); }
        assert(x37.as_elem() == pow(s, 536870915) % (ORDER as int));
        let x38 = x37.mul(x34);
        proof { lemma_pow_mod_mul(s, 536870915, 178956965); }
        assert(x38.as_elem() == pow(s, 715827880) % (ORDER as int));
        let x39 = x38.mul(x37);
        proof { lemma_pow_mod_mul(s, 715827880, 536870915); }
        assert(x39.as_elem() == pow(s, 1252698795) % (ORDER as int));
        let x40 = x39.square();
        proof { lemma_pow_mod_mul(s, 1252698795, 1252698795); }
        assert(x40.as_elem() == pow(s, 2505397590) % (ORDER as int));
        let x41 = x40.square();
        proof { lemma_pow_mod_mul(s, 2505397590, 2505397590); }
        assert(x41.as_elem() == pow(s, 5010795180) % (ORDER as int));
        let x42 = x41.mul(x38);
        proof { lemma_pow_mod_mul(s, 5010795180, 715827880); }
        assert(x42.as_elem() == pow(s, 5726623060) % (ORDER as int));
        let x43 = x42.square();
        proof { lemma_pow_mod_mul(s, 5726623060, 5726623060); }
        assert(x43.as_elem() == pow(s, 11453246120) % (ORDER as int));
        let x44 = x43.square();
        proof { lemma_pow_mod_mul(s, 11453246120, 11453246120); }
        assert(x44.as_elem() == pow(s, 22906492240) % (ORDER as int));
        let x45 = x44.square();
        proof { lemma_pow_mod_mul(s, 22906492240, 22906492240); }
        assert(x45.as_elem() == pow(s, 45812984480) % (ORDER as int));
        let x46 = x45.square();
        proof { lemma_pow_mod_mul(s, 45812984480, 45812984480); }
        assert(x46.as_elem() == pow(s, 91625968960) % (ORDER as int));
        let x47 = x46.square();
        proof { lemma_pow_mod_mul(s, 91625968960, 91625968960); }
        assert(x47.as_elem() == pow(s, 183251937920) % (ORDER as int));
        let x48 = x47.square();
        proof { lemma_pow_mod_mul(s, 183251937920, 183251937920); }
        assert(x48.as_elem() == pow(s, 366503875840) % (ORDER as int));
        let x49 = x48.square();
        proof { lemma_pow_mod_mul(s, 366503875840, 366503875840); }
        assert(x49.as_elem() == pow(s, 733007751680) % (ORDER as int));
        let x50 = x49.square();
        proof { lemma_pow_mod_mul(s, 733007751680, 733007751680); }
        assert(x50.as_elem() == pow(s, 1466015503360) % (ORDER as int));
        let x51 = x50.square();
        proof { lemma_pow_mod_mul(s, 1466015503360, 1466015503360); }
        assert(x51.as_elem() == pow(s, 2932031006720) % (ORDER as int));
        let x52 = x51.square();
        proof { lemma_pow_mod_mul(s, 2932031006720, 2932031006720); }
        assert(x52.as_elem() == pow(s, 5864062013440) % (ORDER as int));
        let x53 = x52.square();
        proof { lemma_pow_mod_mul(s, 5864062013440, 5864062013440); }
        assert(x53.as_elem() == pow(s, 11728124026880) % (ORDER as int));
        let x54 = x53.square();
        proof { lemma_pow_mod_mul(s, 11728124026880, 11728124026880); }
        assert(x54.as_elem() == pow(s, 23456248053760) % (ORDER as int));
        let x55 = x54.square();
        proof { lemma_pow_mod_mul(s, 23456248053760, 23456248053760); }
        assert(x55.as_elem() == pow(s, 46912496107520) % (ORDER as int));
        let x56 = x55.square();
        proof { lemma_pow_mod_mul(s, 46912496107520, 46912496107520); }
        assert(x56.as_elem() == pow(s, 93824992215040) % (ORDER as int));
        let x57 = x56.square();
        proof { lemma_pow_mod_mul(s, 93824992215040, 93824992215040); }
        assert(x57.as_elem() == pow(s, 187649984430080) % (ORDER as int));
        let x58 = x57.square();
        proof { lemma_pow_mod_mul(s, 187649984430080, 187649984430080); }
        assert(x58.as_elem() == pow(s, 375299968860160) % (ORDER as int));
        let x59 = x58.square();
        proof { lemma_pow_mod_mul(s, 375299968860160, 375299968860160); }
        assert(x59.as_elem() == pow(s, 750599937720320) % (ORDER as int));
        let x60 = x59.square();
        proof { lemma_pow_mod_mul(s, 750599937720320, 750599937720320); }
        assert(x60.as_elem() == pow(s, 1501199875440640) % (ORDER as int));
        let x61 = x60.square();
        proof { lemma_pow_mod_mul(s, 1501199875440640, 1501199875440640); }
        assert(x61.as_elem() == pow(s, 3002399750881280) % (ORDER as int));
        let x62 = x61.square();
        proof { lemma_pow_mod_mul(s, 3002399750881280, 3002399750881280); }
        assert(x62.as_elem() == pow(s, 6004799501762560) % (ORDER as int));
        let x63 = x62.square();
        proof { lemma_pow_mod_mul(s, 6004799501762560, 6004799501762560); }
        assert(x63.as_elem() == pow(s, 12009599003525120) % (ORDER as int));
        let x64 = x63.square();
        proof { lemma_pow_mod_mul(s, 12009599003525120, 12009599003525120); }
        assert(x64.as_elem() == pow(s, 24019198007050240) % (ORDER as int));
        let x65 = x64.square();
        proof { lemma_pow_mod_mul(s, 24019198007050240, 24019198007050240); }
        assert(x65.as_elem() == pow(s, 48038396014100480) % (ORDER as int));
        let x66 = x65.square();
        proof { lemma_pow_mod_mul(s, 48038396014100480, 48038396014100480); }
        assert(x66.as_elem() == pow(s, 96076792028200960) % (ORDER as int));
        let x67 = x66.square();
        proof { lemma_pow_mod_mul(s, 96076792028200960, 96076792028200960); }
        assert(x67.as_elem() == pow(s, 192153584056401920) % (ORDER as int));
        let x68 = x67.square();
        proof { lemma_pow_mod_mul(s, 192153584056401920, 192153584056401920); }
        assert(x68.as_elem() == pow(s, 384307168112803840) % (ORDER as int));
        let x69 = x68.square();
        proof { lemma_pow_mod_mul(s, 384307168112803840, 384307168112803840); }
        assert(x69.as_elem() == pow(s, 768614336225607680) % (ORDER as int));
        let x70 = x69.square();
        proof { lemma_pow_mod_mul(s, 768614336225607680, 768614336225607680); }
        assert(x70.as_elem() == pow(s, 1537228672451215360) % (ORDER as int));
        let x71 = x70.square();
        proof { lemma_pow_mod_mul(s, 1537228672451215360, 1537228672451215360); }
        assert(x71.as_elem() == pow(s, 3074457344902430720) % (ORDER as int));
        let x72 = x71.square();
        proof { lemma_pow_mod_mul(s, 3074457344902430720, 3074457344902430720); }
        assert(x72.as_elem() == pow(s, 6148914689804861440) % (ORDER as int));
        let x73 = x72.square();
        proof { lemma_pow_mod_mul(s, 6148914689804861440, 6148914689804861440); }
        assert(x73.as_elem() == pow(s, 12297829379609722880) % (ORDER as int));
        let x74 = x73.mul(x39);
        proof { lemma_pow_mod_mul(s, 12297829379609722880, 1252698795); }
        assert(x74.as_elem() == pow(s, 12297829380862421675) % (ORDER as int));
        x74
    }
}

/// Adding an element and then subtracting the same element gives back the
/// first element's residue.
pub proof fn lemma_add_sub_cancel(x: int, y: int)
    ensures
        fsub(fadd(x, y), y) == x % (ORDER as int),
{
    let m = ORDER as int;
    vstd::arithmetic::div_mod::lemma_mod_twice(x + y, m);
    lemma_sub_mod_noop((x + y) % m, y, m);
    lemma_sub_mod_noop(x + y, y, m);
}

/// One is the multiplicative identity.
pub proof fn lemma_mul_one(x: int)
    ensures
        fmul(x, 1) == x % (ORDER as int),
{
}

/// Zero is the additive identity.
pub proof fn lemma_add_zero(x: int)
    ensures
        fadd(x, 0) == x % (ORDER as int),
{
}

/// Negating twice gives back the element's residue.
pub proof fn lemma_neg_neg(x: int)
    ensures
        fneg(fneg(x)) == x % (ORDER as int),
{
    vstd::arithmetic::div_mod::lemma_sub_mod_noop_right(0, 0 - x, ORDER as int);
}

/// Multiplication of residues is commutative.
pub proof fn lemma_mul_commutative(x: int, y: int)
    ensures
        fmul(x, y) == fmul(y, x),
{
    vstd::arithmetic::mul::lemma_mul_is_commutative(x, y);
}

/// Multiplication of residues is associative.
pub proof fn lemma_mul_associative(x: int, y: int, z: int)
    ensures
        fmul(fmul(x, y), z) == fmul(x, fmul(y, z)),
{
    let m = ORDER as int;
    vstd::arithmetic::div_mod::lemma_mul_mod_noop_left(x * y, z, m);
    vstd::arithmetic::div_mod::lemma_mul_mod_noop_right(x, y * z, m);
    vstd::arithmetic::mul::lemma_mul_is_associative(x, y, z);
}

/// Multiplication of residues distributes over addition of residues.
pub proof fn lemma_mul_distributive(x: int, y: int, z: int)
    ensures
        fmul(x, fadd(y, z)) == fadd(fmul(x, y), fmul(x, z)),
{
    let m = ORDER as int;
    vstd::arithmetic::div_mod::lemma_mul_mod_noop_right(x, y + z, m);
    vstd::arithmetic::mul::lemma_mul_is_distributive_add(x, y, z);
    lemma_add_mod_noop(x * y, x * z, m);
}

/// Cubing undoes `cube_root` on exactly those elements whose residue is a
/// fixed point of raising to three times the chain's exponent; elsewhere
/// the chain is still the stated power map, but no cube root of the
/// element exists under it.
pub proof fn lemma_cube_of_cube_root(x: int)
    requires
        pow(x, 3 * (CUBE_ROOT_EXPONENT as nat)) % (ORDER as int) == x % (ORDER as int),
    ensures
        ({
            let r = pow(x, CUBE_ROOT_EXPONENT as nat) % (ORDER as int);
            fmul(fmul(r, r), r) == x % (ORDER as int)
        }),
{
    let e = CUBE_ROOT_EXPONENT as nat;
    lemma_pow_mod_mul(x, e, e);
    lemma_pow_mod_mul(x, e + e, e);
}

/// Multiplying residues of two powers of `s` gives the residue of the
/// power at the summed exponent.
proof fn lemma_pow_mod_mul(s: int, e1: nat, e2: nat)
    ensures
        fmul(pow(s, e1) % (ORDER as int), pow(s, e2) % (ORDER as int))
            == pow(s, e1 + e2) % (ORDER as int),
{
    lemma_mul_mod_noop_general(pow(s, e1), pow(s, e2), ORDER as int);
    vstd::arithmetic::power::lemma_pow_adds(s, e1, e2);
}

} // verus!
