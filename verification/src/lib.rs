//! A verified model of a buddy page allocator whose free lists are
//! deterministic, address-ordered skip lists.
//!
//! The allocator manages a contiguous physical address range and hands out
//! power-of-two sized, naturally indexed regions.  Each size class keeps its
//! free regions in a [`list::SkipList`]; [`buddy::BuddyAllocator`] splits and
//! coalesces regions across classes.

use vstd::prelude::*;

pub mod block;
pub mod buddy;
pub mod list;

verus! {

use vstd::arithmetic::power2::{
    pow2,
    lemma_pow2_unfold,
    lemma_pow2_strictly_increases,
    lemma_pow2_adds,
    lemma_pow2_pos,
    lemma2_to64,
    lemma2_to64_rest,
};
use vstd::arithmetic::div_mod::{lemma_fundamental_div_mod, lemma_mod_multiples_basic};

/// Tallest node a skip list may use.
pub const MAX_INDEX_LEVEL: usize = 30;

/// Bytes a skip-list head occupies in the reserved header table: one word per
/// forward pointer plus one for the height.
pub const BLOCK_VEC_SIZE: usize = (MAX_INDEX_LEVEL + 1) * 8;

/// `n` is an exact power of two.
pub open spec fn is_power_of_two(n: nat) -> bool {
    exists|e: nat| n == pow2(e)
}

/// `pow2` grows monotonically, so an exponent is pinned by a two-sided bound.
pub proof fn lemma_pow2_exponent_unique(e1: nat, e2: nat)
    requires
        pow2(e1) <= pow2(e2),
        pow2(e2) < pow2((e1 + 1) as nat),
    ensures
        e1 == e2,
{
    if e2 < e1 {
        lemma_pow2_strictly_increases(e2, e1);
    }
    if e1 + 1 <= e2 {
        lemma_pow2_strictly_increases((e1 + 1) as nat, e2);
    }
}

/// A word-sized value is below `pow2(64)`.
pub proof fn lemma_pow2_word_bound(e: nat)
    requires
        pow2(e) <= usize::MAX,
    ensures
        e < 64,
{
    lemma2_to64();
    lemma2_to64_rest();
    if e >= 64 {
        if e > 64 {
            lemma_pow2_strictly_increases(64, e);
        }
        assert(false);
    }
}

/// Largest power of two not above `num`: returns `r` with
/// `pow2(r) <= num < pow2(r + 1)`.
pub fn logarithmic_two_down(num: usize) -> (r: usize)
    requires
        num >= 1,
    ensures
        pow2(r as nat) <= num as nat,
        (num as nat) < pow2((r + 1) as nat),
        r < 64,
{
    let mut n: usize = num;
    let mut r: usize = 0;
    proof {
        lemma2_to64();
    }
    while n >= 2
        invariant
            1 <= n <= num,
            pow2(r as nat) * n <= num as nat,
            (num as nat) < pow2(r as nat) * (n + 1),
            pow2(r as nat) >= 1,
            pow2(r as nat) <= num,
            r < 64,
        decreases n,
    {
        proof {
            let p = pow2(r as nat) as int;
            let p2 = pow2((r + 1) as nat) as int;
            let m = n as int / 2;
            lemma_pow2_unfold((r + 1) as nat);
            assert(2 * m <= n as int && n as int <= 2 * m + 1);
            assert(p2 * m <= p * (n as int)
                && p * (n as int + 1) <= p2 * (m + 1)
                && p2 <= p2 * m
                && p2 * m <= p2 * (m + 1)) by (nonlinear_arith)
                requires
                    p2 == 2 * p,
                    p >= 1,
                    2 * m <= n as int,
                    n as int <= 2 * m + 1,
                    n as int >= 2,
            ;
            lemma_pow2_word_bound((r + 1) as nat);
        }
        n = n / 2;
        r = r + 1;
    }
    proof {
        let p = pow2(r as nat) as int;
        lemma_pow2_unfold((r + 1) as nat);
        assert(p <= p * (n as int) && p * (n as int + 1) <= 2 * p) by (nonlinear_arith)
            requires
                p >= 1,
                n as int == 1,
        ;
    }
    r
}

/// Exact power of two as a machine word.
pub fn two_to_the(e: usize) -> (r: usize)
    requires
        pow2(e as nat) <= usize::MAX,
    ensures
        r as nat == pow2(e as nat),
{
    let mut i: usize = 0;
    let mut r: usize = 1;
    proof {
        lemma2_to64();
    }
    while i < e
        invariant
            i <= e,
            r as nat == pow2(i as nat),
            pow2(e as nat) <= usize::MAX,
        decreases e - i,
    {
        proof {
            lemma_pow2_unfold((i + 1) as nat);
            if ((i + 1) as nat) < (e as nat) {
                lemma_pow2_strictly_increases((i + 1) as nat, e as nat);
            }
        }
        r = r * 2;
        i = i + 1;
    }
    r
}

/// Smallest power of two not below `num`: returns `r` with
/// `num <= pow2(r)` and, unless `r == 0`, `pow2(r - 1) < num`.
pub fn logarithmic_two_up(num: usize) -> (r: usize)
    requires
        num >= 1,
    ensures
        num as nat <= pow2(r as nat),
        r >= 1 ==> pow2((r - 1) as nat) < num as nat,
        r <= 64,
{
    let down = logarithmic_two_down(num);
    let exact = two_to_the(down);
    if exact == num {
        proof {
            if down >= 1 {
                lemma_pow2_strictly_increases((down - 1) as nat, down as nat);
            }
        }
        down
    } else {
        down + 1
    }
}

/// `x` rounded up to the next multiple of `p`.
pub open spec fn round_up_spec(x: int, p: int) -> int {
    if x % p == 0 {
        x
    } else {
        x - x % p + p
    }
}

pub proof fn lemma_round_up_spec_props(x: int, p: int)
    requires
        p >= 1,
        x >= 0,
    ensures
        round_up_spec(x, p) % p == 0,
        x <= round_up_spec(x, p),
        round_up_spec(x, p) < x + p,
{
    let q = x / p;
    lemma_fundamental_div_mod(x, p);
    if x % p != 0 {
        lemma_mod_multiples_basic(q + 1, p);
        assert(x - x % p + p == (q + 1) * p) by (nonlinear_arith)
            requires
                x == p * q + x % p,
        ;
    }
}

/// `s` is the power of two an allocation request of `size_request` bytes is
/// padded to: at least one page, at least the padded request, and minimal.
pub open spec fn fits_request(page: int, size_request: int, s: int) -> bool {
    &&& is_power_of_two(s as nat)
    &&& s >= round_up_spec(size_request, page)
    &&& s < 2 * round_up_spec(size_request, page)
}

/// Only one size fits a given request.
pub proof fn lemma_fits_request_unique(page: int, size_request: int, s1: int, s2: int)
    requires
        page >= 1,
        size_request >= 1,
        fits_request(page, size_request, s1),
        fits_request(page, size_request, s2),
    ensures
        s1 == s2,
{
    let e1 = choose|e: nat| s1 as nat == pow2(e);
    let e2 = choose|e: nat| s2 as nat == pow2(e);
    lemma_round_up_spec_props(size_request, page);
    if e1 < e2 {
        lemma_pow2_strictly_increases(e1, e2);
        lemma_pow2_unfold((e1 + 1) as nat);
        if e1 + 1 < e2 {
            lemma_pow2_strictly_increases((e1 + 1) as nat, e2);
        }
        assert(false);
    }
    if e2 < e1 {
        lemma_pow2_strictly_increases(e2, e1);
        lemma_pow2_unfold((e2 + 1) as nat);
        if e2 + 1 < e1 {
            lemma_pow2_strictly_increases((e2 + 1) as nat, e1);
        }
        assert(false);
    }
}

/// Two multiples of `d` have a sum and a difference that are multiples too.
pub proof fn lemma_mods(x: int, y: int, d: int)
    requires
        d >= 1,
        x % d == 0,
        y % d == 0,
    ensures
        (x + y) % d == 0,
        (x - y) % d == 0,
{
    let k1 = x / d;
    let k2 = y / d;
    lemma_fundamental_div_mod(x, d);
    lemma_fundamental_div_mod(y, d);
    lemma_mod_multiples_basic(k1 + k2, d);
    lemma_mod_multiples_basic(k1 - k2, d);
    assert(x + y == (k1 + k2) * d && x - y == (k1 - k2) * d) by (nonlinear_arith)
        requires
            x == d * k1 + x % d,
            y == d * k2 + y % d,
            x % d == 0,
            y % d == 0,
    ;
}

/// A multiple of `d1` is a multiple of every divisor `d2` of `d1`.
pub proof fn lemma_mod_compose(x: int, d1: int, d2: int)
    requires
        d1 >= 1,
        d2 >= 1,
        x % d1 == 0,
        d1 % d2 == 0,
    ensures
        x % d2 == 0,
{
    let k1 = x / d1;
    let k2 = d1 / d2;
    lemma_fundamental_div_mod(x, d1);
    lemma_fundamental_div_mod(d1, d2);
    lemma_mod_multiples_basic(k1 * k2, d2);
    assert(x == (k1 * k2) * d2) by (nonlinear_arith)
        requires
            x == d1 * k1 + x % d1,
            d1 == d2 * k2 + d1 % d2,
            x % d1 == 0,
            d1 % d2 == 0,
    ;
}

/// A smaller power of two divides a larger one.
pub proof fn lemma_pow2_divides(e1: nat, e2: nat)
    requires
        e1 <= e2,
    ensures
        pow2(e2) as int % (pow2(e1) as int) == 0,
{
    lemma_pow2_adds(e1, (e2 - e1) as nat);
    lemma_pow2_pos(e1);
    lemma_mod_multiples_basic(pow2((e2 - e1) as nat) as int, pow2(e1) as int);
    assert(pow2(e1) * pow2((e2 - e1) as nat) == pow2((e2 - e1) as nat) * pow2(e1))
        by (nonlinear_arith);
}

/// Round `addr` up to the next multiple of `page_size`.
pub fn page_round_up(addr: usize, page_size: usize) -> (r: usize)
    requires
        page_size >= 1,
        addr + page_size <= usize::MAX,
    ensures
        r as int % page_size as int == 0,
        addr <= r,
        r < addr + page_size,
        r as int == round_up_spec(addr as int, page_size as int),
{
    let rem = addr % page_size;
    proof {
        let p = page_size as int;
        let q = addr as int / p;
        lemma_fundamental_div_mod(addr as int, p);
        assert(q >= 0 && p * q >= 0) by (nonlinear_arith)
            requires
                addr as int == p * q + (addr as int % p),
                0 <= addr as int % p,
                addr as int % p < p,
                p >= 1,
                addr as int >= 0,
        ;
        lemma_mod_multiples_basic(q + 1, p);
        assert(addr as int - (addr as int % p) + p == (q + 1) * p) by (nonlinear_arith)
            requires
                addr as int == p * q + (addr as int % p),
        ;
    }
    if rem == 0 {
        addr
    } else {
        addr - rem + page_size
    }
}

} // verus!
