//! Small arithmetic helpers used by the slab allocator: greatest common
//! divisor, least common multiple (the allocation granularity is the lcm of
//! the element size and the device's mapping alignment), and ceiling
//! division (workgroup counts, brick counts).

use vstd::arithmetic::div_mod::{
    lemma_fundamental_div_mod, lemma_mod_multiples_vanish, lemma_mod_self_0, lemma_small_mod,
};
use vstd::arithmetic::mul::{lemma_mul_is_associative, lemma_mul_is_commutative};
use vstd::prelude::*;

verus! {

/// Euclid's recursion; the reference meaning of `gcd`.
pub open spec fn gcd_spec(a: nat, b: nat) -> nat
    decreases b,
{
    if b == 0 {
        a
    } else {
        gcd_spec(b, a % b)
    }
}

/// The greatest common divisor divides both arguments and is positive when
/// either argument is.
pub proof fn lemma_gcd_divides(a: nat, b: nat)
    requires
        a > 0 || b > 0,
    ensures
        gcd_spec(a, b) > 0,
        a % gcd_spec(a, b) == 0,
        b % gcd_spec(a, b) == 0,
    decreases b,
{
    let g = gcd_spec(a, b);
    if b == 0 {
        lemma_mod_self_0(a as int);
        lemma_small_mod(0, a);
    } else {
        lemma_gcd_divides(b, a % b);
        // a == (a / b) * b + a % b, and g divides both b and a % b.
        lemma_fundamental_div_mod(a as int, b as int);
        let k = b as int / g as int;
        lemma_fundamental_div_mod(b as int, g as int);
        assert(b as int == g * k);
        lemma_mul_is_associative(a as int / b as int, g as int, k);
        lemma_mul_is_commutative(a as int / b as int, g as int);
        lemma_mul_is_associative(g as int, a as int / b as int, k);
        assert(a as int == g * ((a as int / b as int) * k) + (a % b) as int);
        lemma_mod_multiples_vanish((a as int / b as int) * k, (a % b) as int, g as int);
    }
}

pub fn gcd(a: u32, b: u32) -> (r: u32)
    ensures
        r == gcd_spec(a as nat, b as nat),
{
    let mut x = a;
    let mut y = b;
    while y != 0
        invariant
            gcd_spec(x as nat, y as nat) == gcd_spec(a as nat, b as nat),
        decreases y,
    {
        let t = y;
        y = x % y;
        x = t;
    }
    x
}

/// Least common multiple, computed as `a * b / gcd(a, b)`.
pub open spec fn lcm_spec(a: nat, b: nat) -> nat {
    (a * b) / gcd_spec(a, b)
}

pub fn lcm(a: u32, b: u32) -> (r: u32)
    requires
        a > 0,
        b > 0,
        a * b <= u32::MAX,
    ensures
        r == lcm_spec(a as nat, b as nat),
        r % a == 0,
        r % b == 0,
        r >= a,
        r >= b,
{
    proof {
        lemma_gcd_divides(a as nat, b as nat);
        lemma_lcm_bounds(a as nat, b as nat);
    }
    let g = gcd(a, b);
    (a * b) / g
}

/// `lcm(a, b)` is a positive common multiple of `a` and `b`, at least as
/// large as either.
pub proof fn lemma_lcm_bounds(a: nat, b: nat)
    requires
        a > 0,
        b > 0,
    ensures
        lcm_spec(a, b) % a == 0,
        lcm_spec(a, b) % b == 0,
        lcm_spec(a, b) >= a,
        lcm_spec(a, b) >= b,
        lcm_spec(a, b) <= a * b,
{
    let g = gcd_spec(a, b);
    lemma_gcd_divides(a, b);
    let ka = a as int / g as int;
    let kb = b as int / g as int;
    lemma_fundamental_div_mod(a as int, g as int);
    lemma_fundamental_div_mod(b as int, g as int);
    assert(a as int == g * ka);
    assert(b as int == g * kb);
    assert(ka >= 1 && kb >= 1) by (nonlinear_arith)
        requires
            g * ka == a,
            g * kb == b,
            a > 0,
            b > 0,
            g > 0,
    ;
    assert((a * b) as int == g as int * (ka * (g * kb))) by (nonlinear_arith)
        requires
            g * ka == a as int,
            g * kb == b as int,
    ;
    vstd::arithmetic::div_mod::lemma_div_multiples_vanish(ka * (g * kb), g as int);
    assert(lcm_spec(a, b) as int == ka * (g * kb));
    assert(lcm_spec(a, b) as int == a as int * kb) by (nonlinear_arith)
        requires
            g * ka == a as int,
            lcm_spec(a, b) as int == ka * (g * kb),
    ;
    assert(lcm_spec(a, b) as int == b as int * ka) by (nonlinear_arith)
        requires
            g * kb == b as int,
            g * ka == a as int,
            lcm_spec(a, b) as int == ka * (g * kb),
    ;
    vstd::arithmetic::div_mod::lemma_mod_multiples_basic(kb, a as int);
    vstd::arithmetic::div_mod::lemma_mod_multiples_basic(ka, b as int);
    assert(a as int * kb == kb * a as int) by (nonlinear_arith);
    assert(b as int * ka == ka * b as int) by (nonlinear_arith);
    let l = lcm_spec(a, b) as int;
    assert(l >= a && l >= b && l <= a * b) by (nonlinear_arith)
        requires
            l == a as int * kb,
            l == b as int * ka,
            g * kb == b as int,
            ka >= 1,
            kb >= 1,
            a > 0,
            b > 0,
    ;
}

/// Ceiling division as an integer formula.
pub open spec fn ceil_div_spec(a: int, b: int) -> int {
    (a + b - 1) / b
}

pub fn ceil_div(a: u32, b: u64) -> (r: u32)
    requires
        b > 0,
    ensures
        r == ceil_div_spec(a as int, b as int),
        r as int * b >= a,
{
    if a == 0 {
        proof {
            vstd::arithmetic::div_mod::lemma_basic_div_specific_divisor(b as int);
        }
        0
    } else {
        let q = ((a as u64 - 1) / b + 1) as u32;
        proof {
            let ai = a as int;
            let bi = b as int;
            assert((ai - 1) / bi + 1 == (ai + bi - 1) / bi) by (nonlinear_arith)
                requires
                    ai >= 1,
                    bi >= 1,
            ;
            assert((ai - 1) / bi <= ai - 1) by (nonlinear_arith)
                requires
                    ai >= 1,
                    bi >= 1,
            ;
            assert(((ai - 1) / bi + 1) * bi >= ai) by (nonlinear_arith)
                requires
                    ai >= 1,
                    bi >= 1,
            ;
        }
        q
    }
}

} // verus!
