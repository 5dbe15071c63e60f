//! The append-mostly container over the doubling-rank layout.
//!
//! A [`DiskVec`] owns one element row per rank: row `r` holds exactly
//! `pow2(r)` slots, created zero-filled and written at most once per append.
//! The logical content is the prefix of non-sentinel slots in logical index
//! order; everything at or past the logical length still holds the sentinel.
//! Rank rows are the in-memory image of the backing rank files: opening a
//! container from such rows re-derives the logical length from the slot
//! contents alone, by a binary search over the highest rank.

use vstd::prelude::*;
use crate::index::{
    lemma_decompose_injective, lemma_decompose_recompose, lemma_pow2_mono, lemma_pow2_pos,
    lemma_pow2_strict_mono, lemma_rank_of_below_capacity, lemma_rank_of_bounds,
    lemma_rank_of_in_range, ofs_of, pow2, rank_capacity, rank_of, rank_ofs,
};
use crate::recovery::Search;
use crate::volatile::Volatile;

verus! {

/// The slot shapes of a well-formed rank layout: row `r` holds `pow2(r)` slots.
pub open spec fn rank_shapes_ok<T: Volatile>(ranks: Seq<Vec<T>>) -> bool {
    forall|r: int| 0 <= r < ranks.len() ==> (#[trigger] ranks[r])@.len() == pow2(r as nat)
}

/// The element stored at logical index `i` of a rank layout.
pub open spec fn slot_of<T: Volatile>(ranks: Seq<Vec<T>>, i: nat) -> T {
    ranks[rank_of(i) as int]@[ofs_of(i) as int]
}

/// The layout holds written values exactly below `n`: every slot below `n`
/// differs from the sentinel, and every slot from `n` up to the capacity
/// still holds it.
pub open spec fn written_prefix<T: Volatile>(ranks: Seq<Vec<T>>, n: nat) -> bool {
    &&& n <= rank_capacity(ranks.len())
    &&& forall|i: nat| i < n ==> !(#[trigger] slot_of(ranks, i)).is_zeroed()
    &&& forall|i: nat|
        n <= i < rank_capacity(ranks.len()) ==> (#[trigger] slot_of(ranks, i)).is_zeroed()
}

/// Ranks are created lazily, so the highest rank exists only because some
/// index inside it was claimed: the boundary `n` cannot lie below the
/// lowest index of the highest rank.
pub open spec fn boundary_in_top<T: Volatile>(ranks: Seq<Vec<T>>, n: nat) -> bool {
    ranks.len() == 0 || n + 1 >= pow2((ranks.len() - 1) as nat)
}

/// An append-mostly vector whose storage doubles rank by rank.
pub struct DiskVec<T: Volatile> {
    ranks: Vec<Vec<T>>,
    len: usize,
}

impl<T: Volatile> View for DiskVec<T> {
    type V = Seq<T>;

    closed spec fn view(&self) -> Seq<T> {
        Seq::new(self.len as nat, |i: int| slot_of(self.ranks@, i as nat))
    }
}

impl<T: Volatile> DiskVec<T> {
    /// How many ranks have been created.
    pub closed spec fn n_ranks(self) -> nat {
        self.ranks@.len()
    }

    /// How many slots the created ranks hold together.
    pub closed spec fn spec_capacity(self) -> nat {
        rank_capacity(self.ranks@.len())
    }

    /// The container invariant: rank rows have their doubling sizes, the
    /// written slots are exactly the prefix below the logical length, and
    /// the highest rank was created for a claimed index.
    pub closed spec fn wf(self) -> bool {
        &&& rank_shapes_ok(self.ranks@)
        &&& written_prefix(self.ranks@, self.len as nat)
        &&& boundary_in_top(self.ranks@, self.len as nat)
    }

    /// An empty container with no ranks created yet.
    pub fn new() -> (dv: Self)
        ensures
            dv.wf(),
            dv@ == Seq::<T>::empty(),
            dv.n_ranks() == 0,
    {
        let dv = DiskVec { ranks: Vec::new(), len: 0 };
        proof {
            assert(dv@ =~= Seq::<T>::empty());
        }
        dv
    }

    /// The logical length: how many slots have been appended.
    pub fn len(&self) -> (n: usize)
        ensures
            n == self@.len(),
    {
        self.len
    }

    /// How many ranks have been created.
    pub fn rank_count(&self) -> (n: usize)
        ensures
            n == self.n_ranks(),
    {
        self.ranks.len()
    }

    /// The slot count of a created rank, always `pow2(rank)`.
    pub fn rank_len(&self, rank: usize) -> (n: usize)
        requires
            self.wf(),
            rank < self.n_ranks(),
        ensures
            n == pow2(rank as nat),
    {
        self.ranks[rank].len()
    }

    /// Borrow slot `ofs` of rank `rank` mutably, leaving every other slot alone.
    fn slot_mut(ranks: &mut Vec<Vec<T>>, rank: usize, ofs: usize) -> (r: &mut T)
        requires
            rank < old(ranks)@.len(),
            ofs < old(ranks)@[rank as int]@.len(),
        ensures
            *r == old(ranks)@[rank as int]@[ofs as int],
            final(ranks)@.len() == old(ranks)@.len(),
            forall|rr: int|
                0 <= rr < old(ranks)@.len() && rr != rank ==> final(ranks)@[rr] == old(ranks)@[rr],
            final(ranks)@[rank as int]@ == old(ranks)@[rank as int]@.update(
                ofs as int,
                *final(r),
            ),
    {
        let row: &mut Vec<T> = &mut ranks[rank];
        &mut row[ofs]
    }

    /// Borrow the value at logical index `index` mutably, or report the slot
    /// absent. A slot is present exactly when its index lies below the
    /// length. The caller may overwrite the slot in place through the
    /// borrow; as long as the value left behind is not the sentinel, the
    /// container invariant survives the overwrite.
    pub fn get_mut(&mut self, index: usize) -> (r: Option<&mut T>)
        requires
            old(self).wf(),
            index < usize::MAX,
        ensures
            match r {
                Some(v) => {
                    &&& index < old(self)@.len()
                    &&& *v == old(self)@[index as int]
                    &&& final(self)@ =~= old(self)@.update(index as int, *final(v))
                    &&& final(self).n_ranks() == old(self).n_ranks()
                    &&& (!(*final(v)).is_zeroed() ==> final(self).wf())
                },
                None => old(self)@.len() <= index && *final(self) == *old(self),
            },
    {
        let (rank, ofs) = rank_ofs(index);
        proof {
            lemma_rank_of_bounds(index as nat);
            lemma_decompose_recompose(index as nat);
        }
        if rank < self.ranks.len() {
            proof {
                lemma_pow2_mono(rank_of(index as nat) + 1, self.ranks@.len());
                assert(index < self.spec_capacity());
                assert(slot_of(self.ranks@, index as nat) == self.ranks@[rank as int]@[ofs as int]);
            }
            if self.ranks[rank][ofs].is_zero() {
                proof {
                    assert(self.len <= index);
                }
                None
            } else {
                proof {
                    assert(index < self.len);
                    assert(self@[index as int] == slot_of(self.ranks@, index as nat));
                }
                let ghost pre = *self;
                proof {
                    // any state that differs from the current one in this one
                    // slot alone keeps every other slot, whatever was written
                    assert forall|ranks2: Seq<Vec<T>>, k: nat|
                        (ranks2.len() == pre.ranks@.len() && (forall|rr: int|
                            0 <= rr < ranks2.len() && rr != rank ==> ranks2[rr]
                                == pre.ranks@[rr]) && ranks2[rank as int]@.len()
                            == pre.ranks@[rank as int]@.len() && (forall|o: int|
                            0 <= o < ranks2[rank as int]@.len() && o != ofs
                                ==> ranks2[rank as int]@[o] == pre.ranks@[rank as int]@[o]) && k
                            < pre.spec_capacity() && k != index) implies #[trigger] slot_of(
                        ranks2,
                        k,
                    ) == slot_of(pre.ranks@, k) by {
                        lemma_rank_of_below_capacity(pre.ranks@.len(), k);
                        lemma_decompose_recompose(k);
                        if rank_of(k) == rank_of(index as nat) && ofs_of(k) == ofs_of(
                            index as nat,
                        ) {
                            lemma_decompose_injective(k, index as nat);
                        }
                    }
                }
                let slot_ref: &mut T = Self::slot_mut(&mut self.ranks, rank, ofs);
                Some(slot_ref)
            }
        } else {
            proof {
                lemma_pow2_pos(self.ranks@.len());
                lemma_pow2_mono(self.ranks@.len(), rank_of(index as nat));
                assert(self.spec_capacity() <= index);
            }
            None
        }
    }

    /// Store `v` in slot `ofs` of rank `rank`, leaving every other slot alone.
    fn write_slot(ranks: &mut Vec<Vec<T>>, rank: usize, ofs: usize, v: T)
        requires
            rank < old(ranks)@.len(),
            ofs < old(ranks)@[rank as int]@.len(),
        ensures
            final(ranks)@.len() == old(ranks)@.len(),
            forall|r: int|
                0 <= r < old(ranks)@.len() && r != rank ==> final(ranks)@[r] == old(ranks)@[r],
            final(ranks)@[rank as int]@ == old(ranks)@[rank as int]@.update(ofs as int, v),
    {
        let row: &mut Vec<T> = &mut ranks[rank];
        row.set(ofs, v);
    }

    /// Borrow the value at logical index `index`, or report the slot absent.
    /// A slot is present exactly when its index lies below the length.
    pub fn get(&self, index: usize) -> (r: Option<&T>)
        requires
            self.wf(),
            index < usize::MAX,
        ensures
            match r {
                Some(v) => index < self@.len() && *v == self@[index as int],
                None => self@.len() <= index,
            },
    {
        let (rank, ofs) = rank_ofs(index);
        proof {
            lemma_rank_of_bounds(index as nat);
            lemma_decompose_recompose(index as nat);
        }
        if rank < self.ranks.len() {
            proof {
                lemma_pow2_mono(rank_of(index as nat) + 1, self.ranks@.len());
                assert(index < self.spec_capacity());
            }
            let slot_ref: &T = &self.ranks[rank][ofs];
            proof {
                assert(slot_of(self.ranks@, index as nat) == self.ranks@[rank as int]@[ofs as int]);
            }
            if slot_ref.is_zero() {
                proof {
                    assert(self.len <= index);
                }
                None
            } else {
                proof {
                    assert(index < self.len);
                    assert(self@[index as int] == slot_of(self.ranks@, index as nat));
                }
                Some(slot_ref)
            }
        } else {
            proof {
                lemma_pow2_pos(self.ranks@.len());
                lemma_pow2_mono(self.ranks@.len(), rank_of(index as nat));
                assert(pow2(self.ranks@.len()) <= pow2(rank_of(index as nat)) <= index + 1);
                assert(self.spec_capacity() <= index);
            }
            None
        }
    }

    /// Reopen a container from the contents of its rank files, re-deriving
    /// the logical length from the slots alone: a binary search inside the
    /// highest rank finds the boundary between written and sentinel slots.
    pub fn open(ranks: Vec<Vec<T>>) -> (dv: Self)
        requires
            rank_shapes_ok(ranks@),
            rank_capacity(ranks@.len()) <= usize::MAX,
            exists|n: nat| written_prefix(ranks@, n) && boundary_in_top(ranks@, n),
        ensures
            dv.wf(),
            dv.n_ranks() == ranks@.len(),
            written_prefix(ranks@, dv@.len()),
            forall|i: int| 0 <= i < dv@.len() ==> dv@[i] == slot_of(ranks@, i as nat),
    {
        let ghost n = choose|n: nat| written_prefix(ranks@, n) && boundary_in_top(ranks@, n);
        let n_ranks = ranks.len();
        let mut len: usize = 0;
        if n_ranks > 0 {
            let ghost top = (n_ranks - 1) as nat;
            proof {
                lemma_pow2_pos(top);
                lemma_pow2_strict_mono(top, n_ranks as nat);
            }
            let mut s = Search::new(n_ranks - 1);
            loop
                invariant
                    rank_shapes_ok(ranks@),
                    written_prefix(ranks@, n),
                    ranks@.len() == n_ranks,
                    top == n_ranks - 1,
                    s.wf(),
                    rank_capacity(top) <= s.lo(),
                    s.hi() <= rank_capacity(n_ranks as nat) - 1,
                    rank_capacity(n_ranks as nat) <= usize::MAX,
                    s.lo() <= n <= s.hi() + 1,
                ensures
                    len == n,
                decreases s.hi() - s.lo(),
            {
                let probe: usize = s.probe();
                proof {
                    lemma_rank_of_in_range(top, probe as nat);
                    lemma_decompose_recompose(probe as nat);
                }
                let (rank, ofs) = rank_ofs(probe);
                let nonzero = !ranks[rank][ofs].is_zero();
                proof {
                    assert(slot_of(ranks@, probe as nat) == ranks@[rank as int]@[ofs as int]);
                    if nonzero {
                        // a written slot lies at the probe, so the boundary is past it
                        assert(probe < n);
                    } else {
                        // the probe slot is still the sentinel, so the boundary is at or below
                        assert(!(probe < n));
                    }
                }
                match s.step(nonzero) {
                    Some(l) => {
                        len = l;
                        break;
                    },
                    None => {},
                }
            }
        } else {
            proof {
                assert(n == 0);
            }
        }
        let dv = DiskVec { ranks, len };
        proof {
            assert(forall|i: int|
                0 <= i < dv@.len() ==> dv@[i] == slot_of(dv.ranks@, i as nat));
        }
        dv
    }

    /// Append `v`, growing a new zero-filled rank if the claimed index is
    /// the first of a rank not yet created, and return the claimed index.
    pub fn push(&mut self, v: T) -> (i: usize)
        requires
            old(self).wf(),
            !v.is_zeroed(),
            old(self)@.len() < usize::MAX,
        ensures
            final(self).wf(),
            i == old(self)@.len(),
            final(self)@ == old(self)@.push(v),
            final(self).n_ranks() == if rank_of(i as nat) < old(self).n_ranks() {
                old(self).n_ranks()
            } else {
                rank_of(i as nat) + 1
            },
    {
        let i = self.len;
        let (rank, ofs) = rank_ofs(i);
        proof {
            lemma_rank_of_bounds(i as nat);
            lemma_decompose_recompose(i as nat);
            lemma_pow2_pos(self.ranks@.len());
            if rank_of(i as nat) > self.ranks@.len() {
                // then pow2(n_ranks + 1) <= pow2(rank) <= i + 1 <= pow2(n_ranks),
                // contradicting monotonicity
                lemma_pow2_strict_mono(self.ranks@.len(), self.ranks@.len() + 1);
                lemma_pow2_mono(self.ranks@.len() + 1, rank_of(i as nat));
                assert(false);
            }
        }
        if rank >= self.ranks.len() {
            proof {
                // the claimed index is the first slot of the new rank
                assert(rank == self.ranks@.len());
                assert(i as nat == self.spec_capacity());
                assert(ofs == 0);
            }
            let size: usize = if rank == 0 {
                1
            } else {
                2 * self.ranks[rank - 1].len()
            };
            assert(size == pow2(rank as nat));
            let mut row: Vec<T> = Vec::new();
            let mut j: usize = 0;
            while j < size
                invariant
                    j <= size,
                    row@.len() == j,
                    forall|k: int| 0 <= k < j ==> (#[trigger] row@[k]).is_zeroed(),
                decreases size - j,
            {
                row.push(T::zeroed());
                j = j + 1;
            }
            self.ranks.push(row);
            proof {
                assert(self.ranks@[rank as int] == row);
                assert(forall|o: int|
                    0 <= o < self.ranks@[rank as int]@.len() ==> (#[trigger] self.ranks@[rank as int]@[o]).is_zeroed());
            }
        }
        let ghost pre = self.ranks@;
        let ghost zero_row = self.ranks@[rank as int]@;
        proof {
            // in either case the prefix of ranks carried over from entry is intact
            assert(forall|r: int|
                0 <= r < old(self).ranks@.len() ==> pre[r] == #[trigger] old(self).ranks@[r]);
            assert(forall|k: nat|
                rank_of(k) < old(self).ranks@.len() ==> #[trigger] slot_of(pre, k) == slot_of(
                    old(self).ranks@,
                    k,
                ));
        }
        Self::write_slot(&mut self.ranks, rank, ofs, v);
        self.len = i + 1;
        proof {
            let post = self.ranks@;
            assert forall|k: nat| k < i implies #[trigger] slot_of(post, k) == slot_of(
                old(self).ranks@,
                k,
            ) by {
                lemma_rank_of_below_capacity(old(self).ranks@.len(), k);
                lemma_decompose_recompose(k);
                if rank_of(k) == rank_of(i as nat) && ofs_of(k) == ofs_of(i as nat) {
                    lemma_decompose_injective(k, i as nat);
                }
            }
            assert(slot_of(post, i as nat) == v);
            assert forall|k: nat|
                i + 1 <= k < rank_capacity(post.len()) implies (#[trigger] slot_of(
                post,
                k,
            )).is_zeroed() by {
                lemma_rank_of_below_capacity(post.len(), k);
                lemma_decompose_recompose(k);
                lemma_rank_of_bounds(k);
                if rank_of(k) == rank_of(i as nat) && ofs_of(k) == ofs_of(i as nat) {
                    lemma_decompose_injective(k, i as nat);
                }
                if rank_of(k) < old(self).ranks@.len() {
                    // an old slot past the old boundary, unchanged and zeroed
                    lemma_pow2_mono(rank_of(k) + 1, old(self).ranks@.len());
                    assert(k < rank_capacity(old(self).ranks@.len()));
                    assert(slot_of(post, k) == slot_of(old(self).ranks@, k));
                    assert(slot_of(old(self).ranks@, k).is_zeroed());
                } else {
                    // a slot of the freshly created, zero-filled rank
                    assert(rank_of(k) == rank as nat);
                    assert(ofs_of(k) != ofs as nat);
                    assert(ofs_of(k) < zero_row.len());
                    assert(slot_of(post, k) == zero_row[ofs_of(k) as int]);
                    assert(zero_row[ofs_of(k) as int].is_zeroed());
                }
            }
            assert(rank_shapes_ok(post));
            if rank_of(i as nat) < old(self).ranks@.len() {
                // the claimed index was strictly below the old capacity
                lemma_pow2_mono(rank_of(i as nat) + 1, old(self).ranks@.len());
                assert(i + 1 <= rank_capacity(post.len()));
            } else {
                assert(pow2(post.len()) == 2 * pow2(old(self).ranks@.len()));
                assert(i + 1 <= rank_capacity(post.len()));
            }
            assert(written_prefix(post, self.len as nat));
            assert(boundary_in_top(post, self.len as nat));
            assert(self@ =~= old(self)@.push(v));
        }
        i
    }

    /// Copy out the contents of every rank, in rank order: the image that
    /// the backing files hold after a clean close. Reopening a container
    /// from this image recovers the same length and the same values.
    pub fn export(&self) -> (d: Vec<Vec<T>>)
        requires
            self.wf(),
        ensures
            d@.len() == self.n_ranks(),
            rank_shapes_ok(d@),
            written_prefix(d@, self@.len()),
            boundary_in_top(d@, self@.len()),
            forall|i: int| 0 <= i < self@.len() ==> slot_of(d@, i as nat) == self@[i],
    {
        let mut d: Vec<Vec<T>> = Vec::new();
        let mut r: usize = 0;
        while r < self.ranks.len()
            invariant
                r <= self.ranks@.len(),
                d@.len() == r,
                forall|rr: int| 0 <= rr < r ==> (#[trigger] d@[rr])@ == self.ranks@[rr]@,
            decreases self.ranks@.len() - r,
        {
            let row: &Vec<T> = &self.ranks[r];
            let mut new_row: Vec<T> = Vec::new();
            let mut o: usize = 0;
            while o < row.len()
                invariant
                    o <= row@.len(),
                    new_row@.len() == o,
                    forall|k: int| 0 <= k < o ==> #[trigger] new_row@[k] == row@[k],
                decreases row@.len() - o,
            {
                new_row.push(row[o]);
                o = o + 1;
            }
            proof {
                assert(new_row@ =~= self.ranks@[r as int]@);
            }
            d.push(new_row);
            r = r + 1;
        }
        proof {
            assert forall|i: nat| i < self.spec_capacity() implies #[trigger] slot_of(d@, i)
                == slot_of(self.ranks@, i) by {
                lemma_rank_of_below_capacity(self.ranks@.len(), i);
                lemma_decompose_recompose(i);
            }
        }
        d
    }
}

/// The round trip of an append and a read: in the container state that an
/// append of `v` leaves behind, the index `i` it returned holds `v`, so a
/// quiescent read at `i` yields the appended value.
pub proof fn lemma_push_then_get<T: Volatile>(pre: DiskVec<T>, post: DiskVec<T>, v: T, i: nat)
    requires
        post@ == pre@.push(v),
        i == pre@.len(),
    ensures
        i < post@.len(),
        post@[i as int] == v,
{
}

/// Appends claim distinct indices: handing the container from one append
/// to the next, the second append claims the index one past the first, so
/// no two appends ever claim the same index.
pub proof fn lemma_append_injective<T: Volatile>(
    pre: DiskVec<T>,
    mid: DiskVec<T>,
    post: DiskVec<T>,
    u: T,
    v: T,
    i: nat,
    j: nat,
)
    requires
        mid@ == pre@.push(u),
        i == pre@.len(),
        post@ == mid@.push(v),
        j == mid@.len(),
    ensures
        j == i + 1,
        i != j,
{
}

/// The claim discipline of appends covers the index space: every append
/// claims the length standing at its claim point and leaves it one larger,
/// so `N` appends starting from an empty container claim exactly the
/// indices `0 .. N`, each of them once — none is lost, none claimed twice.
/// `lens` are the lengths around the appends, `claims` the claimed indices.
pub proof fn lemma_append_claims_cover(lens: Seq<nat>, claims: Seq<nat>)
    requires
        lens.len() == claims.len() + 1,
        lens[0] == 0,
        forall|j: int|
            0 <= j < claims.len() ==> (#[trigger] claims[j]) == lens[j] && lens[j + 1] == lens[j]
                + 1,
    ensures
        forall|k: int| 0 <= k < claims.len() ==> (#[trigger] claims[k]) == k,
{
    assert forall|k: int| 0 <= k < claims.len() implies (#[trigger] claims[k]) == k by {
        lemma_length_chain(lens, claims, k);
    }
}

proof fn lemma_length_chain(lens: Seq<nat>, claims: Seq<nat>, k: int)
    requires
        lens.len() == claims.len() + 1,
        lens[0] == 0,
        forall|j: int|
            0 <= j < claims.len() ==> (#[trigger] claims[j]) == lens[j] && lens[j + 1] == lens[j]
                + 1,
        0 <= k < claims.len(),
    ensures
        lens[k] == k,
    decreases k,
{
    if k > 0 {
        lemma_length_chain(lens, claims, k - 1);
        assert(claims[k - 1] == lens[k - 1]);
    }
}

/// Persistence: a container reopened from the image of a closed one — rank
/// contents that hold the closed container's values as their written prefix
/// — has the closed container's length and contents, since the image alone
/// determines both.
pub proof fn lemma_reopen_restores<T: Volatile>(
    ranks: Seq<Vec<T>>,
    closed: Seq<T>,
    reopened: Seq<T>,
)
    requires
        written_prefix(ranks, closed.len() as nat),
        forall|i: int| 0 <= i < closed.len() ==> slot_of(ranks, i as nat) == closed[i],
        written_prefix(ranks, reopened.len() as nat),
        forall|i: int| 0 <= i < reopened.len() ==> reopened[i] == slot_of(ranks, i as nat),
    ensures
        reopened == closed,
{
    lemma_recovered_length_unique(ranks, closed.len() as nat, reopened.len() as nat);
    assert(reopened =~= closed);
}

/// Recovery is unambiguous: the rank contents alone determine where the
/// written prefix ends, so a container reopened from the image of a closed
/// one finds the closed one's length, whatever search discovers it.
pub proof fn lemma_recovered_length_unique<T: Volatile>(ranks: Seq<Vec<T>>, n1: nat, n2: nat)
    requires
        written_prefix(ranks, n1),
        written_prefix(ranks, n2),
    ensures
        n1 == n2,
{
    if n1 < n2 {
        assert(!slot_of(ranks, n1).is_zeroed());
        assert(slot_of(ranks, n1).is_zeroed());
    }
    if n2 < n1 {
        assert(!slot_of(ranks, n2).is_zeroed());
        assert(slot_of(ranks, n2).is_zeroed());
    }
}

} // verus!
