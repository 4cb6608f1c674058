//! Arithmetic over heap-indexed tree positions: powers of two, the depth of a
//! position, and the ancestor of a position a given number of levels above it.

use vstd::prelude::*;
use vstd::arithmetic::power2::{
    lemma2_to64, lemma_pow2_adds, lemma_pow2_pos, lemma_pow2_strictly_increases,
    lemma_pow2_unfold, pow2,
};
use vstd::arithmetic::div_mod::{
    lemma_basic_div, lemma_div_basics, lemma_div_by_self, lemma_div_denominator,
    lemma_div_is_ordered, lemma_fundamental_div_mod,
};

verus! {

/// Depth of a heap-indexed tree position: the root `1` has depth 0, the
/// children `2i` and `2i + 1` of a position `i` lie one level deeper.
pub open spec fn depth(i: nat) -> nat
    decreases i,
{
    if i <= 1 {
        0
    } else {
        depth((i / 2) as nat) + 1
    }
}

/// The ancestor of position `i` that lies `d` levels above it (`i` itself for
/// `d == 0`); `0` when `i` has fewer than `d` proper ancestors.
pub open spec fn anc(i: nat, d: nat) -> nat {
    i / pow2(d)
}

/// `pow2` is monotone.
pub proof fn lemma_pow2_le(e1: nat, e2: nat)
    requires
        e1 <= e2,
    ensures
        pow2(e1) <= pow2(e2),
{
    if e1 < e2 {
        lemma_pow2_strictly_increases(e1, e2);
    }
}

/// A position at depth `d` lies in the row `[2^d, 2^(d+1))`.
pub proof fn lemma_depth_bounds(i: nat)
    requires
        1 <= i,
    ensures
        pow2(depth(i)) <= i < 2 * pow2(depth(i)),
    decreases i,
{
    if i <= 1 {
        lemma2_to64();
    } else {
        lemma_depth_bounds((i / 2) as nat);
        lemma_pow2_unfold(depth(i));
        lemma_fundamental_div_mod(i as int, 2);
    }
}

/// The row `[2^d, 2^(d+1))` holds exactly the positions of depth `d`.
pub proof fn lemma_depth_unique(i: nat, d: nat)
    requires
        pow2(d) <= i < 2 * pow2(d),
    ensures
        depth(i) == d,
{
    lemma_pow2_pos(d);
    lemma_depth_bounds(i);
    if depth(i) < d {
        lemma_pow2_le((depth(i) + 1) as nat, d);
        lemma_pow2_unfold((depth(i) + 1) as nat);
        assert(false);
    }
    if depth(i) > d {
        lemma_pow2_le((d + 1) as nat, depth(i));
        lemma_pow2_unfold((d + 1) as nat);
        assert(false);
    }
}

/// Taking `a` levels up and then `b` levels up is taking `a + b` levels up.
pub proof fn lemma_anc_compose(i: nat, a: nat, b: nat)
    ensures
        anc(anc(i, a), b) == anc(i, (a + b) as nat),
{
    lemma_pow2_pos(a);
    lemma_pow2_pos(b);
    lemma_pow2_adds(a, b);
    lemma_div_denominator(i as int, pow2(a) as int, pow2(b) as int);
}

/// One more level up is the parent of the previous ancestor.
pub proof fn lemma_anc_parent(i: nat, d: nat)
    ensures
        anc(i, (d + 1) as nat) == anc(i, d) / 2,
{
    lemma2_to64();
    lemma_anc_compose(i, d, 1);
}

/// Going up at most `depth(i)` levels lands on a real position whose depth is
/// smaller by exactly the number of levels travelled.
pub proof fn lemma_anc_props(i: nat, d: nat)
    requires
        1 <= i,
        d <= depth(i),
    ensures
        1 <= anc(i, d) <= i,
        depth(anc(i, d)) == depth(i) - d,
    decreases d,
{
    lemma_pow2_pos(d);
    if d == 0 {
        lemma2_to64();
        lemma_div_basics(i as int);
    } else {
        lemma_anc_props(i, (d - 1) as nat);
        lemma_anc_parent(i, (d - 1) as nat);
        let j = anc(i, (d - 1) as nat);
        assert(depth(j) >= 1);
        assert(j >= 2) by {
            if j <= 1 {
                assert(depth(j) == 0);
            }
        }
        lemma_fundamental_div_mod(j as int, 2);
    }
}

/// An ancestor that is still a real position is at most `depth(i)` levels up.
pub proof fn lemma_anc_pos_depth(i: nat, d: nat)
    requires
        1 <= i,
        1 <= anc(i, d),
    ensures
        d <= depth(i),
{
    if d > depth(i) {
        lemma_depth_bounds(i);
        lemma_pow2_le((depth(i) + 1) as nat, d);
        lemma_pow2_unfold((depth(i) + 1) as nat);
        lemma_pow2_pos(d);
        lemma_basic_div(i as int, pow2(d) as int);
        assert(false);
    }
}

/// Going all the way up from any position reaches the root `1`.
pub proof fn lemma_anc_root(i: nat)
    requires
        1 <= i,
    ensures
        anc(i, depth(i)) == 1,
{
    let d = depth(i);
    lemma_depth_bounds(i);
    lemma_pow2_pos(d);
    lemma_div_by_self(pow2(d) as int);
    lemma_div_is_ordered(pow2(d) as int, i as int, pow2(d) as int);
    assert(anc(i, d) >= 1);
    assert(i / pow2(d) < 2) by {
        lemma_fundamental_div_mod(i as int, pow2(d) as int);
        if i / pow2(d) >= 2 {
            assert(i >= pow2(d) * (i / pow2(d)));
            assert(pow2(d) * (i / pow2(d)) >= pow2(d) * 2) by {
                vstd::arithmetic::mul::lemma_mul_inequality(
                    2,
                    (i / pow2(d)) as int,
                    pow2(d) as int,
                );
            }
        }
    }
}

/// Computes `2^e` as a machine word.
pub fn pow2_exec(e: usize) -> (r: usize)
    requires
        pow2(e as nat) <= usize::MAX,
    ensures
        r == pow2(e as nat),
{
    let mut r: usize = 1;
    let mut k: usize = 0;
    proof {
        lemma2_to64();
    }
    while k < e
        invariant
            k <= e,
            r == pow2(k as nat),
            pow2(e as nat) <= usize::MAX,
        decreases e - k,
    {
        proof {
            lemma_pow2_unfold((k + 1) as nat);
            lemma_pow2_le((k + 1) as nat, e as nat);
        }
        r = r * 2;
        k = k + 1;
    }
    r
}

} // verus!
