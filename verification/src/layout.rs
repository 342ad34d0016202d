//! Alignment and sizing arithmetic for the on-block metadata layout.
//!
//! Metadata inside a mapped block is laid out at word (8-byte) granularity:
//! a free-region header is four words (leading sentinel, prev link, next
//! link, span size) closed by a six-byte trailing sentinel at the very end
//! of the span; an allocation record is four words (leading sentinel,
//! recovered prev link, record size, closing sentinel) plus one back-offset
//! word placed immediately before the usable bytes.

use vstd::prelude::*;
use vstd::arithmetic::div_mod::{
    lemma_fundamental_div_mod, lemma_fundamental_div_mod_converse_div,
    lemma_fundamental_div_mod_converse_mod, lemma_mod_division_less_than_divisor,
    lemma_mod_multiples_basic, lemma_small_mod,
};
use vstd::arithmetic::power2::is_pow2;

verus! {

/// Bytes in one metadata word.
pub const WORD: usize = 8;

/// Bytes in a free-region header (sentinel, prev, next, span size).
pub const REGION_HEADER_SIZE: usize = 32;

/// Bytes in the trailing sentinel closing a free region.
pub const REGION_FOOTER_SIZE: usize = 6;

/// Bytes in an allocation record (sentinel, recovered prev, size, sentinel).
pub const TAG_SIZE: usize = 32;

/// Bytes in the back-offset word that precedes the usable span and makes the
/// record recoverable from the bare usable address.
pub const BACK_OFFSET_SIZE: usize = 8;

/// Smallest span that can hold a free region: header plus trailing sentinel.
pub const MIN_REGION_SIZE: usize = 38;

/// Floor for the growth increment: 16 MiB.
pub const GROWTH_FLOOR: usize = 16 * 1024 * 1024;

/// Smallest span size a free region may have.
pub fn min_region_size() -> (r: usize)
    ensures
        r == MIN_REGION_SIZE,
{
    REGION_HEADER_SIZE + REGION_FOOTER_SIZE
}

/// `x` rounded up to the next multiple of `a`.
pub open spec fn align_up_spec(x: int, a: int) -> int {
    ((x + a - 1) / a) * a
}

pub proof fn lemma_align_up(x: int, a: int)
    requires
        0 <= x,
        1 <= a,
    ensures
        x <= align_up_spec(x, a) < x + a,
        align_up_spec(x, a) % a == 0,
{
    let q = (x + a - 1) / a;
    let r = (x + a - 1) % a;
    lemma_fundamental_div_mod(x + a - 1, a);
    lemma_mod_division_less_than_divisor(x + a - 1, a);
    assert(align_up_spec(x, a) == x + a - 1 - r);
    lemma_mod_multiples_basic(q, a);
}

/// A multiple of `a` is a multiple of every positive divisor of `a`.
pub proof fn lemma_mod_div_trans(y: int, a: int, b: int)
    requires
        1 <= b,
        1 <= a,
        y % a == 0,
        a % b == 0,
        0 <= y,
    ensures
        y % b == 0,
{
    let qa = y / a;
    let qb = a / b;
    lemma_fundamental_div_mod(y, a);
    lemma_fundamental_div_mod(a, b);
    assert(y == a * qa);
    assert(a == b * qb);
    assert(y == (qa * qb) * b) by (nonlinear_arith)
        requires
            y == a * qa,
            a == b * qb,
    ;
    lemma_mod_multiples_basic(qa * qb, b);
}

/// A power of two divides every power of two at least as large.
pub proof fn lemma_pow2_divides(m: int, n: int)
    requires
        is_pow2(m),
        is_pow2(n),
        m <= n,
    ensures
        n % m == 0,
    decreases n,
{
    reveal(vstd::arithmetic::power2::is_pow2);
    if m == 1 {
        lemma_small_mod(0, 1);
        lemma_fundamental_div_mod_converse_mod(n, 1, n, 0);
    } else {
        // m and n are both even powers of two; divide both by two.
        assert(m % 2 == 0 && is_pow2(m / 2));
        assert(n % 2 == 0 && is_pow2(n / 2));
        vstd::arithmetic::div_mod::lemma_div_is_ordered(m, n, 2);
        lemma_pow2_divides(m / 2, n / 2);
        let k = (n / 2) / (m / 2);
        lemma_fundamental_div_mod(n / 2, m / 2);
        lemma_fundamental_div_mod(n, 2);
        lemma_fundamental_div_mod(m, 2);
        assert(n / 2 == (m / 2) * k);
        assert(n == 2 * (n / 2));
        assert(m == 2 * (m / 2));
        assert(n == k * m) by (nonlinear_arith)
            requires
                n / 2 == (m / 2) * k,
                n == 2 * (n / 2),
                m == 2 * (m / 2),
        ;
        lemma_mod_multiples_basic(k, m);
    }
}

/// Rounding an 8-aligned address up to an 8-aligned boundary `a` moves it by
/// a multiple of 8, so at most `a - 8` bytes are lost to padding.
pub proof fn lemma_align_up_aligned(x: int, a: int)
    requires
        0 <= x,
        8 <= a,
        x % 8 == 0,
        a % 8 == 0,
    ensures
        x <= align_up_spec(x, a) <= x + a - 8,
        align_up_spec(x, a) % a == 0,
        align_up_spec(x, a) % 8 == 0,
{
    lemma_align_up(x, a);
    let p = align_up_spec(x, a);
    lemma_mod_div_trans(p, a, 8);
    let u = p - x;
    assert(u % 8 == 0) by {
        lemma_fundamental_div_mod(p, 8);
        lemma_fundamental_div_mod(x, 8);
        assert(u == (p / 8 - x / 8) * 8);
        lemma_mod_multiples_basic(p / 8 - x / 8, 8);
    };
    assert((a - u) % 8 == 0) by {
        lemma_fundamental_div_mod(u, 8);
        lemma_fundamental_div_mod(a, 8);
        assert(a - u == (a / 8 - u / 8) * 8);
        lemma_mod_multiples_basic(a / 8 - u / 8, 8);
    };
    if a - u < 8 {
        lemma_small_mod((a - u) as nat, 8);
    }
}

/// `x` rounded up to the next multiple of `a`.
pub fn align_up(x: usize, a: usize) -> (r: usize)
    requires
        1 <= a,
        x + a <= usize::MAX,
    ensures
        r == align_up_spec(x as int, a as int),
{
    let rem = x % a;
    proof {
        lemma_fundamental_div_mod(x as int, a as int);
        let q = x as int / a as int;
        assert(x as int == (a as int) * q + rem);
        if rem == 0 {
            assert(x + a - 1 == q * (a as int) + (a - 1)) by (nonlinear_arith)
                requires
                    x as int == (a as int) * q,
            ;
            lemma_fundamental_div_mod_converse_div(x + a - 1, a as int, q, a - 1);
        } else {
            assert(x + a - 1 == (q + 1) * (a as int) + (rem - 1)) by (nonlinear_arith)
                requires
                    x as int == (a as int) * q + rem,
            ;
            lemma_fundamental_div_mod_converse_div(x + a - 1, a as int, q + 1, rem - 1);
            assert((q + 1) * (a as int) == q * (a as int) + a) by (nonlinear_arith);
        }
    }
    if rem == 0 {
        x
    } else {
        x + (a - rem)
    }
}

/// The difference of two multiples of `m` is a multiple of `m`.
pub proof fn lemma_mod_sub(x: int, y: int, m: int)
    requires
        1 <= m,
        0 <= y <= x,
        x % m == 0,
        y % m == 0,
    ensures
        (x - y) % m == 0,
{
    lemma_fundamental_div_mod(x, m);
    lemma_fundamental_div_mod(y, m);
    assert(x - y == (x / m - y / m) * m) by (nonlinear_arith)
        requires
            x == m * (x / m),
            y == m * (y / m),
    ;
    lemma_mod_multiples_basic(x / m - y / m, m);
}

/// The sum of two multiples of `m` is a multiple of `m`.
pub proof fn lemma_mod_add(x: int, y: int, m: int)
    requires
        1 <= m,
        0 <= x,
        0 <= y,
        x % m == 0,
        y % m == 0,
    ensures
        (x + y) % m == 0,
{
    lemma_fundamental_div_mod(x, m);
    lemma_fundamental_div_mod(y, m);
    assert(x + y == (x / m + y / m) * m) by (nonlinear_arith)
        requires
            x == m * (x / m),
            y == m * (y / m),
    ;
    lemma_mod_multiples_basic(x / m + y / m, m);
}

/// Rounding up never passes a multiple of `a` that is already at or above
/// `x`.
pub proof fn lemma_align_up_le_multiple(x: int, a: int, m: int)
    requires
        0 <= x <= m,
        1 <= a,
        m % a == 0,
    ensures
        align_up_spec(x, a) <= m,
{
    lemma_align_up(x, a);
    let r = align_up_spec(x, a);
    if r > m {
        lemma_mod_sub(r, m, a);
        lemma_mod_division_less_than_divisor(x + a - 1, a);
        assert(r - m < a);
        lemma_small_mod((r - m) as nat, a as nat);
    }
}

/// `x` rounded up to the 8-aligned boundary `a`, for 8-aligned `x`; at most
/// `a - 8` padding bytes are introduced.
pub fn align_up8(x: usize, a: usize) -> (r: usize)
    requires
        8 <= a,
        x % 8 == 0,
        a % 8 == 0,
        x + a - 8 <= usize::MAX,
    ensures
        r == align_up_spec(x as int, a as int),
        x <= r <= x + a - 8,
        r % a == 0,
        r % 8 == 0,
{
    proof {
        lemma_align_up_aligned(x as int, a as int);
    }
    let rem = x % a;
    proof {
        lemma_fundamental_div_mod(x as int, a as int);
        let q = x as int / a as int;
        assert(x as int == (a as int) * q + rem);
        if rem == 0 {
            assert(x + a - 1 == q * (a as int) + (a - 1)) by (nonlinear_arith)
                requires
                    x as int == (a as int) * q,
            ;
            lemma_fundamental_div_mod_converse_div(x + a - 1, a as int, q, a - 1);
        } else {
            assert(x + a - 1 == (q + 1) * (a as int) + (rem - 1)) by (nonlinear_arith)
                requires
                    x as int == (a as int) * q + rem,
            ;
            lemma_fundamental_div_mod_converse_div(x + a - 1, a as int, q + 1, rem - 1);
            assert((q + 1) * (a as int) == q * (a as int) + a) by (nonlinear_arith);
            // rem is a nonzero multiple of 8, so at least 8
            assert((a as int) * q % 8 == 0) by {
                lemma_fundamental_div_mod(a as int, 8);
                assert((a as int) * q == ((a as int / 8) * q) * 8) by (nonlinear_arith)
                    requires
                        a as int == 8 * (a as int / 8),
                ;
                lemma_mod_multiples_basic((a as int / 8) * q, 8);
            };
            assert(rem % 8 == 0) by {
                lemma_mod_sub(x as int, (a as int) * q, 8);
            };
            if rem < 8 {
                lemma_small_mod(rem as nat, 8);
            }
        }
    }
    if rem == 0 {
        x
    } else {
        x + (a - rem)
    }
}

/// Smallest power of two that is at least `max(p, n)`, accumulating upward
/// from the power of two `p`.
pub open spec fn pow2_ceil_from(p: int, n: int) -> int
    decreases (if p < n { n - p } else { 0 }),
{
    if p < 1 {
        0
    } else if p >= n {
        p
    } else {
        pow2_ceil_from(2 * p, n)
    }
}

/// Smallest power of two that is at least `n`.
pub open spec fn pow2_ceil_spec(n: int) -> int {
    pow2_ceil_from(1, n)
}

pub proof fn lemma_pow2_ceil_from(p: int, n: int)
    requires
        is_pow2(p),
        p < n,
    ensures
        is_pow2(pow2_ceil_from(p, n)),
        n <= pow2_ceil_from(p, n) < 2 * n,
    decreases (if p < n { n - p } else { 0 }),
{
    reveal(vstd::arithmetic::power2::is_pow2);
    assert(is_pow2(2 * p));
    assert(pow2_ceil_from(p, n) == pow2_ceil_from(2 * p, n));
    if 2 * p < n {
        lemma_pow2_ceil_from(2 * p, n);
    } else {
        assert(pow2_ceil_from(2 * p, n) == 2 * p);
    }
}

/// Smallest power of two at least `n`; `None` when the request is beyond
/// what a mapped block may be sized at.
pub fn pow2_ceil(n: usize) -> (r: Option<usize>)
    ensures
        match r {
            Some(v) => v == pow2_ceil_spec(n as int) && is_pow2(v as int) && v >= n && v
                <= usize::MAX / 2 + 1,
            None => n > usize::MAX / 4 + 1,
        },
        n <= usize::MAX / 4 + 1 ==> r.is_some(),
{
    proof {
        reveal(vstd::arithmetic::power2::is_pow2);
    }
    if n > usize::MAX / 4 + 1 {
        return None;
    }
    let mut p: usize = 1;
    while p < n
        invariant
            1 <= p,
            n <= usize::MAX / 4 + 1,
            p <= usize::MAX / 2 + 1,
            is_pow2(p as int),
            pow2_ceil_from(p as int, n as int) == pow2_ceil_spec(n as int),
        decreases (if p < n { n as int - p } else { 0int }),
    {
        proof {
            reveal(vstd::arithmetic::power2::is_pow2);
            assert(is_pow2(2 * p as int));
        }
        p = p * 2;
    }
    Some(p)
}

/// The growth increment derived from a page size: the page size doubled
/// until it reaches the floor.
pub open spec fn growth_of(ps: int) -> int
    decreases (if ps < GROWTH_FLOOR { GROWTH_FLOOR - ps } else { 0 }),
{
    if ps < 1 {
        0
    } else if ps >= GROWTH_FLOOR {
        ps
    } else {
        growth_of(2 * ps)
    }
}

/// Doubles the page size until it reaches the growth floor.
pub fn compute_growth_increment(page_size: usize) -> (r: usize)
    requires
        1 <= page_size,
    ensures
        r == growth_of(page_size as int),
        r >= page_size,
        r >= GROWTH_FLOOR || r == page_size,
{
    let mut s: usize = page_size;
    while s < GROWTH_FLOOR
        invariant
            1 <= s,
            growth_of(s as int) == growth_of(page_size as int),
            s >= page_size,
        decreases (if s < GROWTH_FLOOR { GROWTH_FLOOR as int - s } else { 0int }),
    {
        s = s * 2;
    }
    s
}

} // verus!
