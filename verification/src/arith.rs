use vstd::prelude::*;
use vstd::arithmetic::div_mod::{lemma_fundamental_div_mod, lemma_fundamental_div_mod_converse};

verus! {

/// Ceiling division for non-negative mathematical integers.
pub open spec fn div_up(a: int, b: int) -> int {
    (a + b - 1) / b
}

/// Largest multiple of 64 that is at most `x`.
pub open spec fn prev_mult_64(x: int) -> int {
    x - x % 64
}

/// `div_up(a, b)` multiplied back by `b` covers `a` and is the least such
/// multiple.
pub proof fn lemma_div_up(a: int, b: int)
    requires
        a >= 0,
        b >= 1,
    ensures
        div_up(a, b) >= 0,
        div_up(a, b) * b >= a,
        div_up(a, b) * b < a + b,
        a % b == 0 ==> div_up(a, b) * b == a,
{
    let q = (a + b - 1) / b;
    let r = (a + b - 1) % b;
    lemma_fundamental_div_mod(a + b - 1, b);
    assert(a + b - 1 == b * q + r);
    assert(q * b == b * q) by (nonlinear_arith);
    assert(q >= 0) by (nonlinear_arith)
        requires
            b * q + r == a + b - 1,
            a >= 0,
            b >= 1,
            0 <= r < b,
    ;
    if a % b == 0 {
        let d = a / b;
        lemma_fundamental_div_mod(a, b);
        assert(a == b * d);
        assert(b * d + (b - 1) == a + b - 1);
        lemma_fundamental_div_mod_converse(a + b - 1, b, d, b - 1);
        assert(q == d);
    }
}

/// Ceiling division, `div_up` in executable form.
pub fn div_ceil_usize(a: usize, b: usize) -> (r: usize)
    requires
        b >= 1,
    ensures
        r == div_up(a as int, b as int),
{
    if a == 0 {
        proof {
            lemma_fundamental_div_mod_converse(0 + b as int - 1, b as int, 0, b as int - 1);
        }
        0
    } else {
        let q = (a - 1) / b + 1;
        proof {
            let ai = a as int;
            let bi = b as int;
            let d = (ai - 1) / bi;
            let m = (ai - 1) % bi;
            lemma_fundamental_div_mod(ai - 1, bi);
            assert(ai + bi - 1 == (d + 1) * bi + m) by (nonlinear_arith)
                requires
                    ai - 1 == bi * d + m,
            ;
            lemma_fundamental_div_mod_converse(ai + bi - 1, bi, d + 1, m);
            assert(d + 1 <= ai) by (nonlinear_arith)
                requires
                    ai - 1 == bi * d + m,
                    bi >= 1,
                    0 <= m,
                    d >= 0,
            ;
            assert(d >= 0) by (nonlinear_arith)
                requires
                    ai - 1 == bi * d + m,
                    ai >= 1,
                    bi >= 1,
                    0 <= m < bi,
            ;
        }
        q
    }
}

/// Largest multiple of 64 at most `x`, `prev_mult_64` in executable form.
pub fn prev_multiple_64(x: usize) -> (r: usize)
    ensures
        r == prev_mult_64(x as int),
        r <= x,
        r % 64 == 0,
{
    x - x % 64
}

/// Overflow-checked addition on `usize`.
pub fn add_checked(a: usize, b: usize) -> (r: Option<usize>)
    ensures
        r is Some <==> a + b <= usize::MAX,
        r is Some ==> r->Some_0 == a + b,
{
    if a <= usize::MAX - b {
        Some(a + b)
    } else {
        None
    }
}

/// Overflow-checked multiplication on `usize`.
pub fn mul_checked(a: usize, b: usize) -> (r: Option<usize>)
    ensures
        r is Some <==> a * b <= usize::MAX,
        r is Some ==> r->Some_0 == a * b,
{
    if a == 0 {
        Some(0)
    } else {
        let limit = usize::MAX / a;
        proof {
            let ai = a as int;
            let bi = b as int;
            let mi = usize::MAX as int;
            let rem = mi % ai;
            lemma_fundamental_div_mod(mi, ai);
            assert(mi == ai * (mi / ai) + rem);
            assert(bi <= mi / ai ==> ai * bi <= ai * (mi / ai)) by (nonlinear_arith)
                requires
                    ai >= 1,
            ;
            assert(bi > mi / ai ==> ai * bi >= ai * (mi / ai) + ai) by (nonlinear_arith)
                requires
                    ai >= 1,
            ;
            assert(ai * (mi / ai) + ai > mi);
        }
        if b <= limit {
            Some(a * b)
        } else {
            None
        }
    }
}

/// Smallest power of two that is at least `n`.
pub open spec fn next_pow2(n: int) -> int
    decreases n,
{
    if n <= 1 {
        1
    } else {
        2 * next_pow2((n + 1) / 2)
    }
}

/// Whether `p` is a power of two.
pub open spec fn is_pow2(p: int) -> bool
    decreases p,
{
    if p <= 0 {
        false
    } else if p == 1 {
        true
    } else {
        p % 2 == 0 && is_pow2(p / 2)
    }
}

/// `next_pow2(n)` is the least power of two at or above `n`.
pub proof fn lemma_next_pow2(n: int)
    ensures
        next_pow2(n) >= 1,
        is_pow2(next_pow2(n)),
        next_pow2(n) >= n,
        n >= 1 ==> next_pow2(n) < 2 * n,
    decreases n,
{
    if n <= 1 {
    } else {
        let m = (n + 1) / 2;
        lemma_next_pow2(m);
        let r = next_pow2(m);
        assert(is_pow2(2 * r)) by {
            assert((2 * r) % 2 == 0);
            assert((2 * r) / 2 == r);
        }
        assert(2 * m >= n);
        if n % 2 == 0 {
            assert(2 * m == n);
            assert(r < n);
        } else {
            assert(2 * m == n + 1);
            assert(r <= n);
            if r == n {
                assert(is_pow2(n));
                assert(n % 2 == 1);
                assert(false);
            }
        }
        assert(2 * r < 2 * n);
    }
}

/// `next_pow2` in executable form, for the shard-count range of the erasure
/// coder.
pub fn next_pow2_exec(n: usize) -> (r: usize)
    requires
        n <= 65536,
    ensures
        r == next_pow2(n as int),
    decreases n,
{
    if n <= 1 {
        1
    } else {
        proof {
            lemma_next_pow2((n as int + 1) / 2);
        }
        2 * next_pow2_exec((n + 1) / 2)
    }
}

} // verus!
