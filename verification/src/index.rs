//! The index algebra of the doubling-rank layout.
//!
//! Rank `r` holds `pow2(r)` slots, so ranks `0..n` together hold
//! `pow2(n) - 1` slots. The slot for logical index `i` sits at offset
//! `ofs_of(i)` inside rank `rank_of(i)`, where `rank_of(i)` is the unique
//! `r` with `pow2(r) <= i + 1 < pow2(r + 1)`.

use vstd::prelude::*;

verus! {

/// `2^r` as a mathematical natural.
pub open spec fn pow2(r: nat) -> nat
    decreases r,
{
    if r == 0 {
        1
    } else {
        2 * pow2((r - 1) as nat)
    }
}

/// The rank holding logical index `i`: `floor(log2(i + 1))`.
pub open spec fn rank_of(i: nat) -> nat
    decreases i,
{
    if i == 0 {
        0
    } else {
        1 + rank_of(((i - 1) / 2) as nat)
    }
}

/// The offset of logical index `i` inside its rank.
pub open spec fn ofs_of(i: nat) -> nat {
    (i + 1 - pow2(rank_of(i))) as nat
}

/// The number of slots held by ranks `0..n` together.
pub open spec fn rank_capacity(n: nat) -> nat {
    (pow2(n) - 1) as nat
}

pub proof fn lemma_pow2_pos(r: nat)
    ensures
        pow2(r) >= 1,
    decreases r,
{
    if r > 0 {
        lemma_pow2_pos((r - 1) as nat);
    }
}

pub proof fn lemma_pow2_ge_succ(r: nat)
    ensures
        pow2(r) >= r + 1,
    decreases r,
{
    if r > 0 {
        lemma_pow2_ge_succ((r - 1) as nat);
    }
}

pub proof fn lemma_pow2_mono(a: nat, b: nat)
    requires
        a <= b,
    ensures
        pow2(a) <= pow2(b),
    decreases b,
{
    if a < b {
        lemma_pow2_mono(a, (b - 1) as nat);
        lemma_pow2_pos((b - 1) as nat);
    }
}

pub proof fn lemma_pow2_strict_mono(a: nat, b: nat)
    requires
        a < b,
    ensures
        pow2(a) < pow2(b),
{
    lemma_pow2_mono(a + 1, b);
    lemma_pow2_pos(a);
}

/// `rank_of(i)` really is the unique rank whose index range contains `i`.
pub proof fn lemma_rank_of_bounds(i: nat)
    ensures
        pow2(rank_of(i)) <= i + 1 < pow2(rank_of(i) + 1),
    decreases i,
{
    if i > 0 {
        let j = ((i - 1) / 2) as nat;
        lemma_rank_of_bounds(j);
        assert(i == 2 * j + 1 || i == 2 * j + 2);
    }
}

pub proof fn lemma_rank_of_unique(i: nat, r: nat)
    requires
        pow2(r) <= i + 1 < pow2(r + 1),
    ensures
        r == rank_of(i),
{
    lemma_rank_of_bounds(i);
    if r < rank_of(i) {
        lemma_pow2_mono(r + 1, rank_of(i));
    }
    if r > rank_of(i) {
        lemma_pow2_mono(rank_of(i) + 1, r);
    }
}

/// Recomposition: the decomposition of `i` into rank and offset loses
/// nothing, and the offset always fits inside the rank. In other words,
/// `pow2(rank_of(i)) + ofs_of(i) - 1 == i` with `ofs_of(i) < pow2(rank_of(i))`.
pub proof fn lemma_decompose_recompose(i: nat)
    ensures
        ofs_of(i) < pow2(rank_of(i)),
        pow2(rank_of(i)) + ofs_of(i) == i + 1,
{
    lemma_rank_of_bounds(i);
}

/// Decomposition is injective: distinct indices land in distinct slots.
pub proof fn lemma_decompose_injective(i: nat, j: nat)
    requires
        rank_of(i) == rank_of(j),
        ofs_of(i) == ofs_of(j),
    ensures
        i == j,
{
    lemma_decompose_recompose(i);
    lemma_decompose_recompose(j);
}

/// Every index between the bounds of rank `r` decomposes into rank `r`.
pub proof fn lemma_rank_of_in_range(r: nat, i: nat)
    requires
        pow2(r) - 1 <= i,
        i + 2 <= pow2(r + 1),
    ensures
        rank_of(i) == r,
{
    lemma_rank_of_unique(i, r);
}

/// Indices below the joint capacity of `n` ranks decompose into one of them.
pub proof fn lemma_rank_of_below_capacity(n: nat, i: nat)
    requires
        i < rank_capacity(n),
    ensures
        rank_of(i) < n,
{
    lemma_rank_of_bounds(i);
    lemma_pow2_pos(n);
    if rank_of(i) >= n {
        lemma_pow2_mono(n, rank_of(i));
    }
}

/// `2^r`, computed in machine arithmetic.
pub fn pow2_usize(r: usize) -> (p: usize)
    requires
        pow2(r as nat) <= usize::MAX,
    ensures
        p == pow2(r as nat),
{
    let mut p: usize = 1;
    let mut k: usize = 0;
    while k < r
        invariant
            k <= r,
            p == pow2(k as nat),
            pow2(r as nat) <= usize::MAX,
        decreases r - k,
    {
        proof {
            lemma_pow2_mono(k as nat + 1, r as nat);
        }
        p = p * 2;
        k = k + 1;
    }
    p
}

/// The byte length of the backing file of rank `r`, for elements of
/// `elem_size` bytes: `elem_size * 2^r`.
pub fn rank_file_size(elem_size: usize, rank: usize) -> (size: usize)
    requires
        pow2(rank as nat) <= usize::MAX,
        elem_size * pow2(rank as nat) <= usize::MAX,
    ensures
        size == elem_size * pow2(rank as nat),
{
    let slots = pow2_usize(rank);
    elem_size * slots
}

/// Decompose a logical index into its rank and the offset inside that rank.
pub fn rank_ofs(index: usize) -> (ro: (usize, usize))
    requires
        index < usize::MAX,
    ensures
        ro.0 == rank_of(index as nat),
        ro.1 == ofs_of(index as nat),
{
    let n: usize = index + 1;
    let mut r: usize = 0;
    let mut p: usize = 1;
    while p <= n / 2
        invariant
            1 <= p,
            p == pow2(r as nat),
            r as nat + 1 <= p,
            p <= n,
            n == index + 1,
        decreases n - p,
    {
        proof {
            lemma_pow2_ge_succ(r as nat + 1);
        }
        p = p * 2;
        r = r + 1;
    }
    proof {
        assert(2 * p > n);
        lemma_rank_of_unique(index as nat, r as nat);
    }
    (r, n - p)
}

/// The lowest and highest logical index stored in rank `rank`:
/// `(0, 0)` for rank `0`, and `(2^r - 1, 2^(r+1) - 2)` for `r > 0`.
pub fn min_max(rank: usize) -> (mm: (usize, usize))
    requires
        pow2(rank as nat + 1) - 2 <= usize::MAX,
    ensures
        rank == 0 ==> mm == (0usize, 0usize),
        rank > 0 ==> mm.0 == pow2(rank as nat) - 1 && mm.1 == pow2(rank as nat + 1) - 2,
        mm.0 == rank_capacity(rank as nat),
        mm.1 + 1 == rank_capacity(rank as nat + 1),
{
    if rank == 0 {
        (0, 0)
    } else {
        proof {
            lemma_pow2_pos(rank as nat);
        }
        let p: usize = pow2_usize(rank);
        (p - 1, 2 * (p - 1))
    }
}

} // verus!
