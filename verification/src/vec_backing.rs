use vstd::prelude::*;

use crate::arena::{range_spec, splice_seq, ArenaBacking};
use crate::digest::{Digest, DIGEST_BYTES};
use crate::errors::ArenaError;

verus! {

broadcast use vstd::array::group_array_axioms;

/// The vector backing: a plain growable array of digests.  It is the
/// reference implementation of the arena interface; every operation delegates
/// to ordinary sequence manipulation, and none of them can fail to allocate
/// (growing a vector aborts rather than reporting exhaustion), so its
/// reachable capacity is unbounded.
impl ArenaBacking for Vec<Digest> {
    open spec fn digests(&self) -> Seq<Seq<u8>> {
        self.deep_view()
    }

    open spec fn spec_capacity(&self) -> nat {
        usize::MAX as nat
    }

    open spec fn backing_wf(&self) -> bool {
        true
    }

    proof fn lemma_backing_wf(&self) {
        broadcast use vstd::std_specs::vec::axiom_spec_len;

        assert(vstd::std_specs::vec::spec_vec_len(self) == self@.len());
        assert forall|i: int|
            0 <= i < self.deep_view().len() implies (#[trigger] self.deep_view()[i]).len()
            == DIGEST_BYTES by {
            assert(self.deep_view()[i] == self@[i].deep_view());
        }
    }

    fn with_capacity(capacity: usize) -> (r: Result<Self, ArenaError>) {
        let v: Vec<Digest> = Vec::with_capacity(capacity);
        proof {
            assert(v.deep_view() =~= Seq::<Seq<u8>>::empty());
        }
        Ok(v)
    }

    fn len(&self) -> (n: usize) {
        Vec::len(self)
    }

    fn extend_capacity(&mut self, capacity: usize) -> (r: Result<(), ArenaError>) {
        let n = Vec::len(self);
        if capacity > n {
            self.reserve(capacity - n);
        }
        Ok(())
    }

    fn splice_forgetful(&mut self, start: usize, end: usize, replace_with: &Vec<Digest>) -> (r:
        Result<(), ArenaError>) {
        let n = Vec::len(self);
        if start > end || end > n {
            return Err(ArenaError::InvalidRange);
        }
        let k = replace_with.len();
        let mut out: Vec<Digest> = Vec::new();
        let mut i: usize = 0;
        while i < start
            invariant
                start <= end <= n,
                n == self@.len(),
                i <= start,
                out@.len() == i,
                forall|q: int| 0 <= q < i ==> out@[q] == self@[q],
            decreases start - i,
        {
            out.push(self[i]);
            i += 1;
        }
        let mut j: usize = 0;
        while j < k
            invariant
                start <= end <= n,
                n == self@.len(),
                k == replace_with@.len(),
                j <= k,
                out@.len() == start + j,
                forall|q: int| 0 <= q < start ==> out@[q] == self@[q],
                forall|q: int| 0 <= q < j ==> out@[start + q] == replace_with@[q],
            decreases k - j,
        {
            out.push(replace_with[j]);
            j += 1;
        }
        let mut t: usize = end;
        while t < n
            invariant
                start <= end <= n,
                n == self@.len(),
                k == replace_with@.len(),
                end <= t <= n,
                out@.len() == start + k + (t - end),
                forall|q: int| 0 <= q < start ==> out@[q] == self@[q],
                forall|q: int| 0 <= q < k ==> out@[start + q] == replace_with@[q],
                forall|q: int| end <= q < t ==> out@[start + k + (q - end)] == self@[q],
            decreases n - t,
        {
            out.push(self[t]);
            t += 1;
        }
        proof {
            let dv = splice_seq(
                self.deep_view(),
                start as int,
                end as int,
                replace_with.deep_view(),
            );
            assert forall|q: int| 0 <= q < out@.len() implies out.deep_view()[q] == dv[q] by {
                assert(out.deep_view()[q] == out@[q].deep_view());
                if q < start {
                    assert(out@[q] == self@[q]);
                    assert(dv[q] == self.deep_view()[q]);
                } else if q < start + k {
                    assert(out@[q] == replace_with@[q - start]);
                    assert(dv[q] == replace_with.deep_view()[q - start]);
                } else {
                    assert(out@[q] == self@[q - start - k + end]);
                    assert(dv[q] == self.deep_view()[q - start - k + end]);
                }
            }
            assert(out.deep_view() =~= dv);
        }
        *self = out;
        Ok(())
    }

    fn get(&self, i: usize) -> (r: Option<Digest>) {
        if i < Vec::len(self) {
            let d = self[i];
            proof {
                assert(d@ == self.deep_view()[i as int]);
            }
            Some(d)
        } else {
            None
        }
    }

    fn set_digest(&mut self, i: usize, value: &Digest) -> (r: bool) {
        if i < Vec::len(self) {
            self.set(i, *value);
            proof {
                assert forall|q: int|
                    0 <= q < self@.len() implies self.deep_view()[q] == old(
                    self,
                ).deep_view().update(i as int, value@)[q] by {
                    assert(self.deep_view()[q] == self@[q].deep_view());
                }
                assert(self.deep_view() =~= old(self).deep_view().update(i as int, value@));
            }
            true
        } else {
            false
        }
    }

    fn iter_range(&self, start: usize, end: usize) -> (r: Result<Vec<Digest>, ArenaError>) {
        if start > end || end > Vec::len(self) {
            return Err(ArenaError::OutOfBounds);
        }
        let mut out: Vec<Digest> = Vec::new();
        let mut t: usize = start;
        while t < end
            invariant
                start <= end <= self@.len(),
                start <= t <= end,
                out@.len() == t - start,
                forall|q: int| start <= q < t ==> out@[q - start] == self@[q],
            decreases end - t,
        {
            out.push(self[t]);
            t += 1;
        }
        proof {
            let dv = range_spec(self.deep_view(), start as int, end as int);
            assert forall|q: int| 0 <= q < out@.len() implies out.deep_view()[q] == dv[q] by {
                assert(out@[q] == self@[q + start]);
                assert(out.deep_view()[q] == out@[q].deep_view());
                assert(dv[q] == self.deep_view()[q + start]);
            }
            assert(out.deep_view() =~= dv);
        }
        Ok(out)
    }

    fn set_range(&mut self, start: usize, values: &Vec<Digest>) -> (r: Result<(), ArenaError>) {
        let n = Vec::len(self);
        let k = values.len();
        if start > n || k > n - start {
            return Err(ArenaError::OutOfBounds);
        }
        let mut j: usize = 0;
        while j < k
            invariant
                start + k <= n,
                n == self@.len(),
                k == values@.len(),
                j <= k,
                forall|q: int| 0 <= q < n && !(start <= q < start + j) ==> self@[q] == old(self)@[q],
                forall|q: int| 0 <= q < j ==> self@[start + q] == values@[q],
            decreases k - j,
        {
            self.set(start + j, values[j]);
            j += 1;
        }
        proof {
            let dv = splice_seq(
                old(self).deep_view(),
                start as int,
                start + values@.len(),
                values.deep_view(),
            );
            assert forall|q: int| 0 <= q < self@.len() implies self.deep_view()[q] == dv[q] by {
                assert(self.deep_view()[q] == self@[q].deep_view());
                if q < start {
                    assert(self@[q] == old(self)@[q]);
                    assert(dv[q] == old(self).deep_view()[q]);
                } else if q < start + k {
                    assert(self@[q] == values@[q - start]);
                    assert(dv[q] == values.deep_view()[q - start]);
                } else {
                    assert(self@[q] == old(self)@[q]);
                    assert(dv[q] == old(self).deep_view()[q]);
                }
            }
            assert(self.deep_view() =~= dv);
        }
        Ok(())
    }
}

} // verus!
