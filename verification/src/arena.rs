use vstd::prelude::*;

use crate::digest::{Digest, DIGEST_BYTES};
use crate::errors::ArenaError;

verus! {

/// Whether every entry of a digest sequence has exactly the digest size.
pub open spec fn all_digest_sized(s: Seq<Seq<u8>>) -> bool {
    forall|i: int| 0 <= i < s.len() ==> (#[trigger] s[i]).len() == DIGEST_BYTES
}

/// Whether `[start, end)` addresses a contiguous range of `s`.
pub open spec fn valid_range(s: Seq<Seq<u8>>, start: int, end: int) -> bool {
    0 <= start <= end <= s.len()
}

/// The digest sequence after replacing `[start, end)` of `s` with `repl`.
pub open spec fn splice_seq(s: Seq<Seq<u8>>, start: int, end: int, repl: Seq<Seq<u8>>) -> Seq<
    Seq<u8>,
> {
    s.subrange(0, start) + repl + s.subrange(end, s.len() as int)
}

/// What a lookup of slot `i` observes in a digest sequence.
pub open spec fn get_spec(s: Seq<Seq<u8>>, i: int) -> Option<Seq<u8>> {
    if 0 <= i < s.len() {
        Some(s[i])
    } else {
        None
    }
}

/// What a read of the index range `[start, end)` observes.
pub open spec fn range_spec(s: Seq<Seq<u8>>, start: int, end: int) -> Seq<Seq<u8>> {
    s.subrange(start, end)
}

/// A backing store for an arena of 32-byte digests: a flat, index-addressed,
/// resizable sequence.  Every operation's observable outcome is fixed by the
/// abstract digest sequence `digests()`, so any two well-formed backings that
/// hold equal digest sequences behave identically.
///
/// `spec_capacity()` counts the digest slots the backing can reach without a
/// fresh allocation; operations whose result fits in it are guaranteed to
/// succeed.
pub trait ArenaBacking: Sized {
    /// The sequence of digest values the backing currently holds.
    spec fn digests(&self) -> Seq<Seq<u8>>;

    /// Digest slots reachable without a fresh allocation.
    spec fn spec_capacity(&self) -> nat;

    /// Structural well-formedness of the backing.
    spec fn backing_wf(&self) -> bool;

    /// The length invariant: a well-formed backing holds no more digests than
    /// its capacity, and each of them is exactly 32 bytes.
    proof fn lemma_backing_wf(&self)
        requires
            self.backing_wf(),
        ensures
            self.digests().len() <= self.spec_capacity(),
            all_digest_sized(self.digests()),
    ;

    /// Creates an empty backing able to hold `capacity` digests without a
    /// subsequent grow.  Requesting zero never allocates, so it cannot fail.
    fn with_capacity(capacity: usize) -> (r: Result<Self, ArenaError>)
        requires
            capacity * DIGEST_BYTES <= usize::MAX,
        ensures
            match r {
                Ok(a) => {
                    &&& a.backing_wf()
                    &&& a.digests() == Seq::<Seq<u8>>::empty()
                    &&& a.spec_capacity() >= capacity
                },
                Err(e) => e == ArenaError::AllocationFailed,
            },
            capacity == 0 ==> r is Ok,
    ;

    /// The number of digest slots currently populated.
    fn len(&self) -> (n: usize)
        requires
            self.backing_wf(),
        ensures
            n == self.digests().len(),
    ;

    /// Grows the reachable capacity to at least `capacity` digests without
    /// changing the contents.  A backing that has never allocated stays as it
    /// is.  Requests within the current capacity never allocate, so they
    /// cannot fail.
    fn extend_capacity(&mut self, capacity: usize) -> (r: Result<(), ArenaError>)
        requires
            old(self).backing_wf(),
            capacity * DIGEST_BYTES <= usize::MAX,
        ensures
            final(self).backing_wf(),
            final(self).digests() == old(self).digests(),
            match r {
                Ok(()) => {
                    &&& final(self).spec_capacity() >= old(self).spec_capacity()
                    &&& (old(self).spec_capacity() > 0 ==> final(self).spec_capacity() >= capacity)
                },
                Err(e) => {
                    &&& e == ArenaError::AllocationFailed
                    &&& final(self).spec_capacity() == old(self).spec_capacity()
                },
            },
            capacity <= old(self).spec_capacity() ==> r is Ok,
    ;

    /// Replaces the index range `[start, end)` with `replace_with`, shifting
    /// the tail, and discards the removed digests.  An invalid range is
    /// rejected before any memory is touched.  A result that fits in the
    /// current capacity needs no fresh allocation, so it cannot fail; on an
    /// allocation failure the backing is left unchanged.
    fn splice_forgetful(&mut self, start: usize, end: usize, replace_with: &Vec<Digest>) -> (r:
        Result<(), ArenaError>)
        requires
            old(self).backing_wf(),
            valid_range(old(self).digests(), start as int, end as int) ==> (old(self).digests().len()
                - (end - start) + replace_with@.len()) * DIGEST_BYTES <= usize::MAX,
        ensures
            final(self).backing_wf(),
            !valid_range(old(self).digests(), start as int, end as int) ==> {
                &&& r == Err::<(), ArenaError>(ArenaError::InvalidRange)
                &&& final(self).digests() == old(self).digests()
                &&& final(self).spec_capacity() == old(self).spec_capacity()
            },
            valid_range(old(self).digests(), start as int, end as int) ==> match r {
                Ok(()) => final(self).digests() == splice_seq(
                    old(self).digests(),
                    start as int,
                    end as int,
                    replace_with.deep_view(),
                ),
                Err(e) => {
                    &&& e == ArenaError::AllocationFailed
                    &&& final(self).digests() == old(self).digests()
                    &&& final(self).spec_capacity() == old(self).spec_capacity()
                },
            },
            valid_range(old(self).digests(), start as int, end as int) && old(self).digests().len()
                - (end - start) + replace_with@.len() <= old(self).spec_capacity() ==> r is Ok,
    ;

    /// A copy of slot `i`, or `None` when `i` is out of range.  Never panics.
    fn get(&self, i: usize) -> (r: Option<Digest>)
        requires
            self.backing_wf(),
        ensures
            match r {
                Some(d) => i < self.digests().len() && d@ == self.digests()[i as int],
                None => i >= self.digests().len(),
            },
            get_spec(self.digests(), i as int) == match r {
                Some(d) => Some(d@),
                None => None,
            },
    ;

    /// Overwrites the bytes of slot `i` in place; reports whether `i` was in
    /// range.  Out-of-range writes change nothing.
    fn set_digest(&mut self, i: usize, value: &Digest) -> (r: bool)
        requires
            old(self).backing_wf(),
        ensures
            final(self).backing_wf(),
            final(self).spec_capacity() == old(self).spec_capacity(),
            i < old(self).digests().len() ==> r && final(self).digests() == old(
                self,
            ).digests().update(i as int, value@),
            i >= old(self).digests().len() ==> !r && final(self).digests() == old(self).digests(),
    ;

    /// Copies of the digests in the index range `[start, end)`, in order, or
    /// an out-of-bounds error when the range does not fit.
    fn iter_range(&self, start: usize, end: usize) -> (r: Result<Vec<Digest>, ArenaError>)
        requires
            self.backing_wf(),
        ensures
            match r {
                Ok(v) => {
                    &&& valid_range(self.digests(), start as int, end as int)
                    &&& v.deep_view() == range_spec(self.digests(), start as int, end as int)
                },
                Err(e) => {
                    &&& e == ArenaError::OutOfBounds
                    &&& !valid_range(self.digests(), start as int, end as int)
                },
            },
    ;

    /// Overwrites the slots `[start, start + values.len())` in place, in
    /// order, or reports an out-of-bounds error and changes nothing when the
    /// window does not fit.
    fn set_range(&mut self, start: usize, values: &Vec<Digest>) -> (r: Result<(), ArenaError>)
        requires
            old(self).backing_wf(),
        ensures
            final(self).backing_wf(),
            final(self).spec_capacity() == old(self).spec_capacity(),
            match r {
                Ok(()) => {
                    &&& start + values@.len() <= old(self).digests().len()
                    &&& final(self).digests() == splice_seq(
                        old(self).digests(),
                        start as int,
                        start + values@.len(),
                        values.deep_view(),
                    )
                },
                Err(e) => {
                    &&& e == ArenaError::OutOfBounds
                    &&& start + values@.len() > old(self).digests().len()
                    &&& final(self).digests() == old(self).digests()
                },
            },
    ;
}

/// Backend equivalence: every observable of the arena interface — validity of
/// a range, the outcome of a lookup, the digests a range read yields, and the
/// digest sequence a splice produces — is a function of the digest sequence
/// alone.  Two backings holding equal digest sequences therefore agree on
/// every operation, step for step.
pub proof fn lemma_backend_equivalence(
    s: Seq<Seq<u8>>,
    t: Seq<Seq<u8>>,
    start: int,
    end: int,
    repl: Seq<Seq<u8>>,
    i: int,
)
    requires
        s == t,
    ensures
        get_spec(s, i) == get_spec(t, i),
        valid_range(s, start, end) == valid_range(t, start, end),
        range_spec(s, start, end) == range_spec(t, start, end),
        splice_seq(s, start, end, repl) == splice_seq(t, start, end, repl),
{
}

/// Splice correctness: replacing `[start, end)` of an `n`-digest sequence
/// with `k` digests yields `n - (end - start) + k` digests whose prefix
/// `[0, start)` is the original prefix, whose middle `[start, start + k)` is
/// the replacement, and whose suffix is the original `[end, n)` shifted to
/// begin at `start + k`.
pub proof fn lemma_splice_parts(s: Seq<Seq<u8>>, start: int, end: int, repl: Seq<Seq<u8>>)
    requires
        valid_range(s, start, end),
    ensures
        splice_seq(s, start, end, repl).len() == s.len() - (end - start) + repl.len(),
        forall|i: int| 0 <= i < start ==> #[trigger] splice_seq(s, start, end, repl)[i] == s[i],
        forall|j: int|
            0 <= j < repl.len() ==> #[trigger] splice_seq(s, start, end, repl)[start + j] == repl[j],
        forall|k: int|
            end <= k < s.len() ==> #[trigger] splice_seq(s, start, end, repl)[start + repl.len() + (
            k - end)] == s[k],
{
}

/// Empty-arena collapse: splicing the whole of any sequence away leaves the
/// empty sequence, and splicing a replacement into the empty sequence yields
/// exactly the replacement.
pub proof fn lemma_splice_collapse(s: Seq<Seq<u8>>, repl: Seq<Seq<u8>>)
    ensures
        splice_seq(s, 0, s.len() as int, Seq::<Seq<u8>>::empty()) == Seq::<Seq<u8>>::empty(),
        splice_seq(Seq::<Seq<u8>>::empty(), 0, 0, repl) == repl,
{
    assert(splice_seq(s, 0, s.len() as int, Seq::<Seq<u8>>::empty()) =~= Seq::<Seq<u8>>::empty());
    assert(splice_seq(Seq::<Seq<u8>>::empty(), 0, 0, repl) =~= repl);
}

} // verus!
