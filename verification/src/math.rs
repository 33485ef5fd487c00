//! Euclidean division, remainder and powers of two on `i32`.
//!
//! All contracts are stated over the ghost operators `/` and `%`, which are
//! Euclidean: for a positive divisor the quotient rounds toward negative
//! infinity and the remainder is always non-negative.  This is exactly the
//! sign convention the chunk grid needs for negative coordinates.

use vstd::prelude::*;

verus! {

use vstd::arithmetic::div_mod::lemma_fundamental_div_mod;
use vstd::arithmetic::div_mod::lemma_mod_division_less_than_divisor;
use vstd::arithmetic::power2::lemma2_to64;
use vstd::arithmetic::power2::lemma_pow2_pos;
use vstd::arithmetic::power2::lemma_pow2_strictly_increases;
use vstd::arithmetic::power2::lemma_pow2_unfold;
use vstd::arithmetic::power2::pow2;

/// For a positive divisor, the Euclidean quotient lies between the dividend
/// and zero.
pub proof fn lemma_div_bounds(a: int, b: int)
    requires
        1 <= b,
    ensures
        a >= 0 ==> 0 <= a / b <= a,
        a < 0 ==> a <= a / b <= 0,
{
    lemma_fundamental_div_mod(a, b);
    lemma_mod_division_less_than_divisor(a, b);
    let q = a / b;
    let r = a % b;
    if a >= 0 {
        assert(q >= 0) by (nonlinear_arith)
            requires
                a == b * q + r,
                a >= 0,
                b >= 1,
                0 <= r < b,
        ;
        assert(q <= a) by (nonlinear_arith)
            requires
                a == b * q + r,
                q >= 0,
                b >= 1,
                0 <= r < b,
        ;
    } else {
        assert(q <= 0) by (nonlinear_arith)
            requires
                a == b * q + r,
                a < 0,
                b >= 1,
                0 <= r < b,
        ;
        assert(q >= a) by (nonlinear_arith)
            requires
                a == b * q + r,
                a < 0,
                q <= 0,
                b >= 1,
                0 <= r < b,
        ;
    }
}

/// Euclidean quotient of `a` by the positive divisor `b`, the value that the
/// ghost operator `/` denotes.
pub fn div_euclid_i32(a: i32, b: i32) -> (q: i32)
    requires
        1 <= b,
    ensures
        q == a as int / b as int,
{
    proof {
        lemma_div_bounds(a as int, b as int);
    }
    a.checked_div_euclid(b).unwrap()
}

/// Euclidean remainder of `a` by the positive divisor `b`, the value that the
/// ghost operator `%` denotes; it is always in `[0, b)`.
pub fn rem_euclid_i32(a: i32, b: i32) -> (r: i32)
    requires
        1 <= b,
    ensures
        r == a as int % b as int,
        0 <= r < b,
{
    proof {
        lemma_mod_division_less_than_divisor(a as int, b as int);
    }
    a.checked_rem_euclid(b).unwrap()
}

/// `2^e`, doubling one step at a time.
pub fn pow2_i32(e: u8) -> (r: i32)
    requires
        pow2(e as nat) <= i32::MAX,
    ensures
        r == pow2(e as nat),
        r >= 1,
{
    let mut r: i32 = 1;
    let mut j: u8 = 0;
    proof {
        lemma2_to64();
    }
    while j < e
        invariant
            j <= e,
            r == pow2(j as nat),
            pow2(e as nat) <= i32::MAX,
        decreases e - j,
    {
        proof {
            lemma_pow2_unfold((j + 1) as nat);
            if ((j + 1) as nat) < (e as nat) {
                lemma_pow2_strictly_increases((j + 1) as nat, e as nat);
            }
        }
        r = r * 2;
        j = j + 1;
    }
    proof {
        lemma_pow2_pos(e as nat);
    }
    r
}

/// `s * 2^e`, the shape of a chunk seen `e` levels further up the pyramid.
pub fn shl_pow2_i32(s: i32, e: u8) -> (r: i32)
    requires
        1 <= s,
        s * pow2(e as nat) <= i32::MAX,
    ensures
        r == s * pow2(e as nat),
        r >= s,
{
    let mut r: i32 = s;
    let mut j: u8 = 0;
    proof {
        lemma2_to64();
    }
    while j < e
        invariant
            j <= e,
            1 <= s,
            r == s * pow2(j as nat),
            s * pow2(e as nat) <= i32::MAX,
        decreases e - j,
    {
        proof {
            lemma_pow2_unfold((j + 1) as nat);
            if ((j + 1) as nat) < (e as nat) {
                lemma_pow2_strictly_increases((j + 1) as nat, e as nat);
            }
            assert(s * pow2((j + 1) as nat) <= s * pow2(e as nat)) by (nonlinear_arith)
                requires
                    1 <= s,
                    pow2((j + 1) as nat) <= pow2(e as nat),
            ;
            assert(r * 2 == s * pow2((j + 1) as nat)) by (nonlinear_arith)
                requires
                    r == s * pow2(j as nat),
                    pow2((j + 1) as nat) == 2 * pow2(j as nat),
            ;
        }
        r = r * 2;
        j = j + 1;
    }
    proof {
        assert(s * 1 == s);
        if e as nat > 0 {
            assert(pow2(0) < pow2(e as nat)) by {
                lemma_pow2_strictly_increases(0, e as nat);
            }
            assert(s * 1 <= s * pow2(e as nat)) by (nonlinear_arith)
                requires
                    1 <= s,
                    1 <= pow2(e as nat),
            ;
        }
    }
    r
}

} // verus!
