use vstd::prelude::*;

use memmap::MmapMut;

use crate::arena::{all_digest_sized, range_spec, splice_seq, ArenaBacking};
use crate::codec::{chunk_digests, lemma_chunk_digests_len, lemma_chunk_splice};
use crate::digest::{Digest, DIGEST_BYTES};
use crate::errors::ArenaError;
use crate::mmap_raw::{mmap_alloc, mmap_bytes, mmap_len, mmap_read, mmap_shift, mmap_write};
use vstd::arithmetic::div_mod::{
    lemma_div_is_ordered, lemma_div_multiples_vanish, lemma_fundamental_div_mod,
    lemma_mod_multiples_basic,
};
use vstd::arithmetic::mul::{lemma_mul_inequality, lemma_mul_nonnegative};

verus! {

broadcast use vstd::array::group_array_axioms;

/// The byte-mapped backing: digests stored contiguously in an anonymous
/// virtual-memory mapping, absent while the arena holds no capacity.  The
/// populated byte count `len` is tracked separately from the mapping's
/// physical size, which may be larger to spare remapping on small splices.
pub struct AnonMmap {
    mmap: Option<MmapMut>,
    len: usize,
}

impl AnonMmap {
    /// The populated byte count.
    pub closed spec fn spec_len_bytes(&self) -> nat {
        self.len as nat
    }

    /// The mapping's physical byte size; zero while no mapping exists.
    pub closed spec fn spec_capacity_bytes(&self) -> nat {
        match self.mmap {
            Some(m) => mmap_bytes(m).len(),
            None => 0,
        }
    }

    /// All bytes of the mapping, populated or slack.
    pub closed spec fn mapping_bytes(&self) -> Seq<u8> {
        match self.mmap {
            Some(m) => mmap_bytes(m),
            None => Seq::<u8>::empty(),
        }
    }

    /// The populated bytes: the flat concatenation of the held digests.
    pub open spec fn bytes_of(&self) -> Seq<u8> {
        self.mapping_bytes().subrange(0, self.spec_len_bytes() as int)
    }

    /// The digest sequence the backing holds.
    pub open spec fn digests_of(&self) -> Seq<Seq<u8>> {
        chunk_digests(self.bytes_of())
    }

    /// Structural invariant: whole digests only, and the populated bytes fit
    /// inside the mapping (no mapping means no populated bytes, since the
    /// physical size is then zero).
    pub open spec fn wf(&self) -> bool {
        &&& self.spec_len_bytes() % (DIGEST_BYTES as nat) == 0
        &&& self.spec_len_bytes() <= self.spec_capacity_bytes()
    }

    /// The mapping's physical size in bytes (zero when unmapped).
    pub fn capacity_bytes(&self) -> (r: usize)
        ensures
            r == self.spec_capacity_bytes(),
    {
        match &self.mmap {
            Some(m) => mmap_len(m),
            None => 0,
        }
    }

    /// The populated byte count.  For a well-formed backing this is always
    /// 32 times the number of digests held.
    pub fn len_bytes(&self) -> (r: usize)
        ensures
            r == self.spec_len_bytes(),
    {
        self.len
    }

    /// The flat byte encoding for persistence: exactly the populated bytes,
    /// with no framing, length prefix, or padding.
    pub fn to_bytes(&self) -> (out: Vec<u8>)
        requires
            self.wf(),
        ensures
            out@ == self.bytes_of(),
    {
        match &self.mmap {
            Some(m) => mmap_read(m, 0, self.len),
            None => {
                let v: Vec<u8> = Vec::new();
                proof {
                    assert(v@ =~= self.bytes_of());
                }
                v
            },
        }
    }

    /// Decodes a flat byte encoding into a freshly mapped backing.  A byte
    /// string that is not a whole number of digests is malformed and never
    /// partially constructs a backing; an empty one needs no mapping, so it
    /// always decodes.
    pub fn from_bytes(bytes: &[u8]) -> (r: Result<AnonMmap, ArenaError>)
        ensures
            bytes@.len() % (DIGEST_BYTES as nat) != 0 ==> r == Err::<AnonMmap, ArenaError>(
                ArenaError::MalformedBytes,
            ),
            bytes@.len() % (DIGEST_BYTES as nat) == 0 ==> match r {
                Ok(a) => {
                    &&& a.wf()
                    &&& a.bytes_of() == bytes@
                    &&& a.spec_len_bytes() == bytes@.len()
                    &&& a.digests_of() == chunk_digests(bytes@)
                },
                Err(e) => e == ArenaError::AllocationFailed,
            },
            bytes@.len() == 0 ==> r is Ok,
    {
        if bytes.len() % DIGEST_BYTES != 0 {
            return Err(ArenaError::MalformedBytes);
        }
        if bytes.len() == 0 {
            let a = AnonMmap { mmap: None, len: 0 };
            proof {
                assert(a.bytes_of() =~= bytes@);
            }
            return Ok(a);
        }
        match mmap_alloc(bytes.len()) {
            None => Err(ArenaError::AllocationFailed),
            Some(mut m) => {
                mmap_write(&mut m, 0, bytes);
                let a = AnonMmap { mmap: Some(m), len: bytes.len() };
                proof {
                    assert(a.bytes_of() =~= bytes@);
                }
                Ok(a)
            },
        }
    }

    /// Whether two backings hold the same populated bytes — that is, the
    /// same digests in the same order.  Slack capacity is not compared.
    pub fn content_eq(&self, other: &AnonMmap) -> (r: bool)
        requires
            self.wf(),
            other.wf(),
        ensures
            r == (self.bytes_of() == other.bytes_of()),
    {
        if self.len != other.len {
            proof {
                assert(self.bytes_of().len() != other.bytes_of().len());
            }
            return false;
        }
        let a = self.to_bytes();
        let b = other.to_bytes();
        let mut i: usize = 0;
        while i < a.len()
            invariant
                a@ == self.bytes_of(),
                b@ == other.bytes_of(),
                a@.len() == b@.len(),
                i <= a@.len(),
                forall|q: int| 0 <= q < i ==> a@[q] == b@[q],
            decreases a@.len() - i,
        {
            if a[i] != b[i] {
                return false;
            }
            i += 1;
        }
        proof {
            assert(a@ =~= b@);
        }
        true
    }

    /// A full independent copy: a fresh mapping of the same physical size
    /// with all bytes, populated and slack, copied over.
    pub fn duplicate(&self) -> (r: Result<AnonMmap, ArenaError>)
        requires
            self.wf(),
        ensures
            match r {
                Ok(c) => {
                    &&& c.wf()
                    &&& c.bytes_of() == self.bytes_of()
                    &&& c.digests_of() == self.digests_of()
                    &&& c.spec_len_bytes() == self.spec_len_bytes()
                    &&& c.spec_capacity_bytes() == self.spec_capacity_bytes()
                },
                Err(e) => e == ArenaError::AllocationFailed,
            },
            self.spec_capacity_bytes() == 0 ==> r is Ok,
    {
        match &self.mmap {
            None => {
                let c = AnonMmap { mmap: None, len: self.len };
                proof {
                    assert(c.bytes_of() =~= self.bytes_of());
                }
                Ok(c)
            },
            Some(m) => {
                let cur = mmap_len(m);
                if cur == 0 {
                    let c = AnonMmap { mmap: None, len: self.len };
                    proof {
                        assert(c.bytes_of() =~= self.bytes_of());
                    }
                    return Ok(c);
                }
                match mmap_alloc(cur) {
                    None => Err(ArenaError::AllocationFailed),
                    Some(mut f) => {
                        let all = mmap_read(m, 0, cur);
                        mmap_write(&mut f, 0, all.as_slice());
                        proof {
                            assert(mmap_bytes(f) =~= mmap_bytes(*m));
                        }
                        let c = AnonMmap { mmap: Some(f), len: self.len };
                        proof {
                            assert(c.bytes_of() == self.bytes_of());
                        }
                        Ok(c)
                    },
                }
            },
        }
    }
}

impl Default for AnonMmap {
    /// The empty backing: no mapping, nothing populated.
    fn default() -> (a: Self)
        ensures
            a.wf(),
            a.digests_of() == Seq::<Seq<u8>>::empty(),
            a.spec_len_bytes() == 0,
            a.spec_capacity_bytes() == 0,
    {
        let a = AnonMmap { mmap: None, len: 0 };
        proof {
            assert(a.bytes_of() =~= Seq::<u8>::empty());
            broadcast use vstd::arithmetic::div_mod::group_div_basics;

            assert(a.digests_of() =~= Seq::<Seq<u8>>::empty());
        }
        a
    }
}

/// The length invariant of the byte-mapped backing: the populated byte count
/// is exactly 32 times the number of digests held.
pub proof fn lemma_len_bytes(a: AnonMmap)
    requires
        a.wf(),
    ensures
        a.spec_len_bytes() == a.digests_of().len() * DIGEST_BYTES,
{
    lemma_chunk_digests_len(a.bytes_of());
    vstd::arithmetic::div_mod::lemma_fundamental_div_mod(
        a.spec_len_bytes() as int,
        DIGEST_BYTES as int,
    );
}

/// Round trip: the byte encoding determines the backing.  A backing whose
/// populated bytes equal another's — as decoding an encoding yields, by the
/// contracts of `to_bytes` and `from_bytes` — holds the same digests at every
/// index and the same populated length.
pub proof fn lemma_round_trip(a: AnonMmap, b: AnonMmap)
    requires
        a.wf(),
        b.wf(),
        b.bytes_of() == a.bytes_of(),
    ensures
        b.digests_of() == a.digests_of(),
        b.spec_len_bytes() == a.spec_len_bytes(),
{
    assert(a.bytes_of().len() == a.spec_len_bytes());
    assert(b.bytes_of().len() == b.spec_len_bytes());
}

/// Writes the digests of `digests` one after another into the mapping,
/// starting at `byte_start`; all other bytes keep their values.
fn write_digests(m: &mut MmapMut, byte_start: usize, digests: &Vec<Digest>)
    requires
        byte_start + digests@.len() * DIGEST_BYTES <= mmap_bytes(*old(m)).len(),
        byte_start + digests@.len() * DIGEST_BYTES <= usize::MAX,
    ensures
        mmap_bytes(*final(m)).len() == mmap_bytes(*old(m)).len(),
        forall|j: int, t: int|
            0 <= j < digests@.len() && 0 <= t < DIGEST_BYTES ==> mmap_bytes(*final(m))[byte_start
                + DIGEST_BYTES * j + t] == (#[trigger] digests.deep_view()[j][t]),
        forall|i: int|
            0 <= i < mmap_bytes(*old(m)).len() && !(byte_start <= i < byte_start + digests@.len()
                * DIGEST_BYTES) ==> mmap_bytes(*final(m))[i] == mmap_bytes(*old(m))[i],
{
    let k = digests.len();
    let mut j: usize = 0;
    while j < k
        invariant
            k == digests@.len(),
            j <= k,
            byte_start + k * DIGEST_BYTES <= mmap_bytes(*old(m)).len(),
            byte_start + k * DIGEST_BYTES <= usize::MAX,
            mmap_bytes(*m).len() == mmap_bytes(*old(m)).len(),
            forall|q: int, t: int|
                0 <= q < j && 0 <= t < DIGEST_BYTES ==> mmap_bytes(*m)[byte_start + DIGEST_BYTES
                    * q + t] == (#[trigger] digests.deep_view()[q][t]),
            forall|i: int|
                0 <= i < mmap_bytes(*old(m)).len() && !(byte_start <= i < byte_start + j
                    * DIGEST_BYTES) ==> mmap_bytes(*m)[i] == mmap_bytes(*old(m))[i],
        decreases k - j,
    {
        let dj = digests[j];
        let ghost before = mmap_bytes(*m);
        proof {
            assert(j * DIGEST_BYTES + DIGEST_BYTES == (j + 1) * DIGEST_BYTES) by {
                vstd::arithmetic::mul::lemma_mul_is_distributive_add_other_way(
                    DIGEST_BYTES as int,
                    j as int,
                    1,
                );
            }
            assert((j + 1) * DIGEST_BYTES <= k * DIGEST_BYTES) by {
                vstd::arithmetic::mul::lemma_mul_inequality(
                    j + 1,
                    k as int,
                    DIGEST_BYTES as int,
                );
            }
        }
        mmap_write(m, byte_start + j * DIGEST_BYTES, dj.as_slice());
        proof {
            assert(dj@ == digests.deep_view()[j as int]);
            assert forall|q: int, t: int|
                0 <= q < j + 1 && 0 <= t < DIGEST_BYTES implies mmap_bytes(*m)[byte_start
                + DIGEST_BYTES * q + t] == (#[trigger] digests.deep_view()[q][t]) by {
                if q < j {
                    assert(before[byte_start + DIGEST_BYTES * q + t] == digests.deep_view()[q][t]);
                } else {
                    assert(mmap_bytes(*m)[byte_start + DIGEST_BYTES * q + t] == dj@[t]);
                }
            }
        }
        j += 1;
    }
}

/// The flattened view of a digest vector: one 32-byte entry per digest.
proof fn lemma_deep_view_sized(v: &Vec<Digest>)
    ensures
        v.deep_view().len() == v@.len(),
        all_digest_sized(v.deep_view()),
        forall|j: int| 0 <= j < v@.len() ==> #[trigger] v.deep_view()[j] == v@[j]@,
{
    assert forall|j: int|
        0 <= j < v@.len() implies (#[trigger] v.deep_view()[j]).len() == DIGEST_BYTES
        && v.deep_view()[j] == v@[j]@ by {
        assert(v.deep_view()[j] == v@[j].deep_view());
    }
}

/// Splicing a single slot is the same as updating it.
proof fn lemma_splice_is_update(s: Seq<Seq<u8>>, i: int, v: Seq<u8>)
    requires
        0 <= i < s.len(),
    ensures
        splice_seq(s, i, i + 1, seq![v]) == s.update(i, v),
{
    assert(splice_seq(s, i, i + 1, seq![v]) =~= s.update(i, v));
}

impl ArenaBacking for AnonMmap {
    open spec fn digests(&self) -> Seq<Seq<u8>> {
        self.digests_of()
    }

    open spec fn spec_capacity(&self) -> nat {
        self.spec_capacity_bytes() / (DIGEST_BYTES as nat)
    }

    open spec fn backing_wf(&self) -> bool {
        self.wf()
    }

    proof fn lemma_backing_wf(&self) {
        lemma_len_bytes(*self);
        lemma_chunk_digests_len(self.bytes_of());
        assert(self.bytes_of().len() == self.spec_len_bytes());
        lemma_div_is_ordered(
            self.spec_len_bytes() as int,
            self.spec_capacity_bytes() as int,
            DIGEST_BYTES as int,
        );
    }

    fn with_capacity(capacity: usize) -> (r: Result<Self, ArenaError>) {
        if capacity == 0 {
            let a = AnonMmap { mmap: None, len: 0 };
            proof {
                assert(a.bytes_of() =~= Seq::<u8>::empty());
                broadcast use vstd::arithmetic::div_mod::group_div_basics;

                assert(a.digests_of() =~= Seq::<Seq<u8>>::empty());
            }
            Ok(a)
        } else {
            match mmap_alloc(capacity * DIGEST_BYTES) {
                Some(m) => {
                    let a = AnonMmap { mmap: Some(m), len: 0 };
                    proof {
                        assert(a.bytes_of() =~= Seq::<u8>::empty());
                        broadcast use vstd::arithmetic::div_mod::group_div_basics;

                        assert(a.digests_of() =~= Seq::<Seq<u8>>::empty());
                        assert(a.spec_capacity_bytes() == capacity * DIGEST_BYTES);
                        lemma_div_multiples_vanish(capacity as int, DIGEST_BYTES as int);
                        assert(a.spec_capacity() == capacity as nat);
                    }
                    Ok(a)
                },
                None => Err(ArenaError::AllocationFailed),
            }
        }
    }

    fn len(&self) -> (n: usize) {
        proof {
            lemma_chunk_digests_len(self.bytes_of());
            assert(self.bytes_of().len() == self.spec_len_bytes());
        }
        self.len / DIGEST_BYTES
    }

    fn extend_capacity(&mut self, capacity: usize) -> (r: Result<(), ArenaError>) {
        let cap_bytes = capacity * DIGEST_BYTES;
        match self.mmap.take() {
            None => {
                proof {
                    assert(*self =~= *old(self));
                }
                Ok(())
            },
            Some(m) => {
                let cur = mmap_len(&m);
                if cap_bytes > cur {
                    match mmap_alloc(cap_bytes) {
                        None => {
                            self.mmap = Some(m);
                            proof {
                                assert(*self =~= *old(self));
                                if capacity <= old(self).spec_capacity() {
                                    lemma_mul_inequality(
                                        capacity as int,
                                        old(self).spec_capacity() as int,
                                        DIGEST_BYTES as int,
                                    );
                                    lemma_fundamental_div_mod(cur as int, DIGEST_BYTES as int);
                                    assert(false);
                                }
                            }
                            Err(ArenaError::AllocationFailed)
                        },
                        Some(mut f) => {
                            if self.len > 0 {
                                let data = mmap_read(&m, 0, self.len);
                                mmap_write(&mut f, 0, data.as_slice());
                            }
                            self.mmap = Some(f);
                            proof {
                                assert(self.bytes_of() =~= old(self).bytes_of());
                                lemma_div_multiples_vanish(capacity as int, DIGEST_BYTES as int);
                                lemma_div_is_ordered(
                                    cur as int,
                                    cap_bytes as int,
                                    DIGEST_BYTES as int,
                                );
                            }
                            Ok(())
                        },
                    }
                } else {
                    self.mmap = Some(m);
                    proof {
                        assert(*self =~= *old(self));
                        lemma_div_is_ordered(cap_bytes as int, cur as int, DIGEST_BYTES as int);
                        lemma_div_multiples_vanish(capacity as int, DIGEST_BYTES as int);
                    }
                    Ok(())
                }
            },
        }
    }

    fn splice_forgetful(&mut self, start: usize, end: usize, replace_with: &Vec<Digest>) -> (r:
        Result<(), ArenaError>) {
        proof {
            lemma_len_bytes(*self);
            lemma_chunk_digests_len(self.bytes_of());
            lemma_deep_view_sized(replace_with);
            assert(self.bytes_of().len() == self.spec_len_bytes());
        }
        let n = self.len / DIGEST_BYTES;
        if start > end || end > n {
            return Err(ArenaError::InvalidRange);
        }
        let ghost s0 = self.digests_of();
        let ghost old_b = self.bytes_of();
        let ghost repl_dv = replace_with.deep_view();
        let repl_count = replace_with.len();
        let ghost new_count: int = n - (end - start) + repl_count;
        proof {
            lemma_mul_nonnegative(start as int, DIGEST_BYTES as int);
            lemma_mul_inequality(start as int, end as int, DIGEST_BYTES as int);
            lemma_mul_inequality(end as int, n as int, DIGEST_BYTES as int);
            lemma_mul_inequality(repl_count as int, new_count, DIGEST_BYTES as int);
            lemma_mul_inequality(start as int + repl_count as int, new_count, DIGEST_BYTES as int);
            assert((self.len as int) == n * DIGEST_BYTES);
            assert(n * DIGEST_BYTES - (end * DIGEST_BYTES - start * DIGEST_BYTES) + repl_count
                * DIGEST_BYTES == new_count * DIGEST_BYTES);
            assert(new_count * DIGEST_BYTES <= usize::MAX);
        }
        let byte_start = start * DIGEST_BYTES;
        let byte_end = end * DIGEST_BYTES;
        let repl_bytes = repl_count * DIGEST_BYTES;
        let old_len = self.len;
        let new_len = old_len - (byte_end - byte_start) + repl_bytes;
        if new_len == 0 {
            self.len = 0;
            self.mmap = None;
            proof {
                assert(self.bytes_of() =~= Seq::<u8>::empty());
                broadcast use vstd::arithmetic::div_mod::group_div_basics;

                assert(self.digests_of() =~= Seq::<Seq<u8>>::empty());
                assert(new_count == 0) by {
                    if new_count >= 1 {
                        lemma_mul_inequality(1, new_count, DIGEST_BYTES as int);
                    }
                }
                assert(start == 0 && end == n && repl_count == 0);
                assert(splice_seq(s0, start as int, end as int, repl_dv) =~= Seq::<Seq<u8>>::empty());
            }
            return Ok(());
        }
        let cap = self.capacity_bytes();
        let first_end = byte_start + repl_bytes;
        if self.mmap.is_some() && new_len <= cap {
            let mut m = self.mmap.take().unwrap();
            let ghost map0 = mmap_bytes(m);
            proof {
                assert(map0 == old(self).mapping_bytes());
                assert(map0.len() == cap);
            }
            if byte_end != first_end && byte_end < old_len {
                mmap_shift(&mut m, byte_end, old_len, first_end);
            }
            let ghost map1 = mmap_bytes(m);
            proof {
                assert(map1.len() == map0.len());
                assert forall|i: int| 0 <= i < byte_start implies map1[i] == map0[i] by {}
                assert forall|i: int| first_end <= i < new_len implies map1[i] == map0[byte_end + (
                i - first_end)] by {}
            }
            write_digests(&mut m, byte_start, replace_with);
            let ghost map2 = mmap_bytes(m);
            self.mmap = Some(m);
            self.len = new_len;
            proof {
                    let new_b = self.bytes_of();
                assert(self.mapping_bytes() == map2);
                assert(new_b.len() == new_len);
                assert(old_b.len() == old_len);
                assert forall|i: int| 0 <= i < DIGEST_BYTES * start implies new_b[i] == old_b[i] by {
                    assert(map2[i] == map1[i]);
                    assert(map1[i] == map0[i]);
                }
                assert forall|j: int, t: int|
                    0 <= j < repl_dv.len() && 0 <= t < DIGEST_BYTES implies new_b[DIGEST_BYTES
                    * start + DIGEST_BYTES * j + t] == (#[trigger] repl_dv[j][t]) by {
                    lemma_mul_inequality(j + 1, repl_count as int, DIGEST_BYTES as int);
                    let dvj = replace_with.deep_view()[j];
                    assert(map2[byte_start + DIGEST_BYTES * j + t] == dvj[t]);
                }
                assert forall|i: int|
                    DIGEST_BYTES * start + DIGEST_BYTES * repl_dv.len() <= i < new_b.len() implies
                    new_b[i] == old_b[i + DIGEST_BYTES * (end - start) - DIGEST_BYTES
                    * repl_dv.len()] by {
                    assert(first_end == DIGEST_BYTES * start + DIGEST_BYTES * repl_count);
                    assert(map2[i] == map1[i]);
                    assert(map1[i] == map0[byte_end + (i - first_end)]);
                    assert(i + DIGEST_BYTES * (end - start) - DIGEST_BYTES * repl_count == byte_end
                        + (i - first_end));
                }
                lemma_chunk_splice(old_b, new_b, start as int, end as int, repl_dv);
                lemma_mod_multiples_basic(new_count, DIGEST_BYTES as int);
            }
            return Ok(());
        }
        match mmap_alloc(new_len) {
            None => {
                proof {
                    if new_count <= old(self).spec_capacity() {
                        lemma_mul_inequality(
                            new_count,
                            old(self).spec_capacity() as int,
                            DIGEST_BYTES as int,
                        );
                        lemma_fundamental_div_mod(cap as int, DIGEST_BYTES as int);
                        assert(new_count >= 1) by {
                            if new_count == 0 {
                                lemma_mul_nonnegative(new_count, DIGEST_BYTES as int);
                            }
                        }
                        assert(false);
                    }
                }
                Err(ArenaError::AllocationFailed)
            },
            Some(f0) => {
                let mut f = f0;
                let (head_v, tail_v) = match &self.mmap {
                    Some(src) => {
                        let hv = if byte_start > 0 {
                            mmap_read(src, 0, byte_start)
                        } else {
                            Vec::new()
                        };
                        let tv = if byte_end < old_len {
                            mmap_read(src, byte_end, old_len)
                        } else {
                            Vec::new()
                        };
                        (hv, tv)
                    },
                    None => (Vec::new(), Vec::new()),
                };
                proof {
                    assert(head_v@ =~= old_b.subrange(0, byte_start as int));
                    assert(tail_v@ =~= old_b.subrange(byte_end as int, old_len as int));
                }
                mmap_write(&mut f, 0, head_v.as_slice());
                mmap_write(&mut f, first_end, tail_v.as_slice());
                write_digests(&mut f, byte_start, replace_with);
                let ghost fmap = mmap_bytes(f);
                self.mmap = Some(f);
                self.len = new_len;
                proof {
                            let new_b = self.bytes_of();
                    assert(self.mapping_bytes() == fmap);
                    assert(new_b.len() == new_len);
                    assert(old_b.len() == old_len);
                    assert forall|i: int|
                        0 <= i < DIGEST_BYTES * start implies new_b[i] == old_b[i] by {
                        assert(fmap[i] == head_v@[i]);
                    }
                    assert forall|j: int, t: int|
                        0 <= j < repl_dv.len() && 0 <= t < DIGEST_BYTES implies new_b[DIGEST_BYTES
                        * start + DIGEST_BYTES * j + t] == (#[trigger] repl_dv[j][t]) by {
                        lemma_mul_inequality(j + 1, repl_count as int, DIGEST_BYTES as int);
                        let dvj = replace_with.deep_view()[j];
                        assert(fmap[byte_start + DIGEST_BYTES * j + t] == dvj[t]);
                    }
                    assert forall|i: int|
                        DIGEST_BYTES * start + DIGEST_BYTES * repl_dv.len() <= i < new_b.len()
                        implies new_b[i] == old_b[i + DIGEST_BYTES * (end - start) - DIGEST_BYTES
                        * repl_dv.len()] by {
                        assert(first_end == DIGEST_BYTES * start + DIGEST_BYTES * repl_count);
                        assert(fmap[i] == tail_v@[i - first_end]);
                        assert(i + DIGEST_BYTES * (end - start) - DIGEST_BYTES * repl_count
                            == byte_end + (i - first_end));
                    }
                    lemma_chunk_splice(old_b, new_b, start as int, end as int, repl_dv);
                    lemma_mod_multiples_basic(new_count, DIGEST_BYTES as int);
                }
                Ok(())
            },
        }
    }

    fn get(&self, i: usize) -> (r: Option<Digest>) {
        proof {
            lemma_len_bytes(*self);
            lemma_chunk_digests_len(self.bytes_of());
            assert(self.bytes_of().len() == self.spec_len_bytes());
        }
        let n = self.len / DIGEST_BYTES;
        if i < n {
            proof {
                    lemma_mul_nonnegative(i as int, DIGEST_BYTES as int);
                lemma_mul_inequality(i as int + 1, n as int, DIGEST_BYTES as int);
                assert((self.len as int) == self.digests_of().len() * DIGEST_BYTES);
            }
            let off = i * DIGEST_BYTES;
            let v = match &self.mmap {
                Some(mref) => mmap_read(mref, off, off + DIGEST_BYTES),
                None => {
                    proof {
                        assert(false);
                    }
                    Vec::new()
                },
            };
            let d = Digest::from_slice(v.as_slice());
            proof {
                assert(d@ =~= self.digests_of()[i as int]);
            }
            Some(d)
        } else {
            None
        }
    }

    fn set_digest(&mut self, i: usize, value: &Digest) -> (r: bool) {
        proof {
            lemma_len_bytes(*self);
            lemma_chunk_digests_len(self.bytes_of());
            assert(self.bytes_of().len() == self.spec_len_bytes());
        }
        let n = self.len / DIGEST_BYTES;
        if i < n {
            proof {
                    lemma_mul_nonnegative(i as int, DIGEST_BYTES as int);
                lemma_mul_inequality(i as int + 1, n as int, DIGEST_BYTES as int);
                assert((self.len as int) == self.digests_of().len() * DIGEST_BYTES);
            }
            let off = i * DIGEST_BYTES;
            let mut m = self.mmap.take().unwrap();
            let ghost map0 = mmap_bytes(m);
            mmap_write(&mut m, off, value.as_slice());
            let ghost map1 = mmap_bytes(m);
            self.mmap = Some(m);
            proof {
                    let s0 = old(self).digests_of();
                let old_b = old(self).bytes_of();
                let new_b = self.bytes_of();
                assert(new_b.len() == old_b.len());
                assert forall|i2: int| 0 <= i2 < DIGEST_BYTES * i implies new_b[i2] == old_b[i2] by {
                    assert(map1[i2] == map0[i2]);
                }
                assert forall|j: int, t: int|
                    0 <= j < 1 && 0 <= t < DIGEST_BYTES implies new_b[DIGEST_BYTES * i
                    + DIGEST_BYTES * j + t] == (#[trigger] seq![value@][j][t]) by {
                    assert(map1[off + t] == value@[t]);
                }
                assert forall|i2: int|
                    DIGEST_BYTES * i + DIGEST_BYTES * 1 <= i2 < new_b.len() implies new_b[i2]
                    == old_b[i2 + DIGEST_BYTES * (i + 1 - i) - DIGEST_BYTES * 1] by {
                    assert(map1[i2] == map0[i2]);
                }
                lemma_chunk_splice(old_b, new_b, i as int, i as int + 1, seq![value@]);
                lemma_splice_is_update(s0, i as int, value@);
            }
            true
        } else {
            false
        }
    }

    fn iter_range(&self, start: usize, end: usize) -> (r: Result<Vec<Digest>, ArenaError>) {
        proof {
            lemma_len_bytes(*self);
            lemma_chunk_digests_len(self.bytes_of());
            assert(self.bytes_of().len() == self.spec_len_bytes());
        }
        let n = self.len / DIGEST_BYTES;
        if start > end || end > n {
            return Err(ArenaError::OutOfBounds);
        }
        let mut out: Vec<Digest> = Vec::new();
        if start == end {
            proof {
                assert(out.deep_view() =~= range_spec(
                    self.digests_of(),
                    start as int,
                    end as int,
                ));
            }
            return Ok(out);
        }
        let mref = match &self.mmap {
            Some(mm) => mm,
            None => {
                proof {
                    assert(false);
                }
                return Err(ArenaError::OutOfBounds);
            },
        };
        let mut t: usize = start;
        while t < end
            invariant
                self.wf(),
                n == self.digests_of().len(),
                self.bytes_of().len() == self.spec_len_bytes(),
                (self.len as int) == n * DIGEST_BYTES,
                start <= t <= end,
                end <= n,
                mmap_bytes(*mref) == self.mapping_bytes(),
                out@.len() == t - start,
                forall|q: int|
                    start <= q < t ==> out.deep_view()[q - start] == self.digests_of()[q],
            decreases end - t,
        {
            proof {
                    lemma_mul_nonnegative(t as int, DIGEST_BYTES as int);
                lemma_mul_inequality(t as int + 1, n as int, DIGEST_BYTES as int);
            }
            let off = t * DIGEST_BYTES;
            let v = mmap_read(mref, off, off + DIGEST_BYTES);
            let d = Digest::from_slice(v.as_slice());
            proof {
                assert(d@ =~= self.digests_of()[t as int]);
            }
            out.push(d);
            t += 1;
        }
        proof {
            assert(out.deep_view() =~= range_spec(self.digests_of(), start as int, end as int));
        }
        Ok(out)
    }

    fn set_range(&mut self, start: usize, values: &Vec<Digest>) -> (r: Result<(), ArenaError>) {
        proof {
            lemma_len_bytes(*self);
            lemma_chunk_digests_len(self.bytes_of());
            lemma_deep_view_sized(values);
            assert(self.bytes_of().len() == self.spec_len_bytes());
        }
        let n = self.len / DIGEST_BYTES;
        let k = values.len();
        if start > n || k > n - start {
            return Err(ArenaError::OutOfBounds);
        }
        let ghost s0 = self.digests_of();
        let ghost old_b = self.bytes_of();
        if k == 0 {
            proof {
                assert(splice_seq(s0, start as int, start as int, values.deep_view()) =~= s0);
            }
            return Ok(());
        }
        proof {
            lemma_mul_nonnegative(start as int, DIGEST_BYTES as int);
            lemma_mul_inequality(start as int + k as int, n as int, DIGEST_BYTES as int);
            assert((self.len as int) == n * DIGEST_BYTES);
        }
        let byte_start = start * DIGEST_BYTES;
        let mut m = self.mmap.take().unwrap();
        let ghost map0 = mmap_bytes(m);
        write_digests(&mut m, byte_start, values);
        let ghost map1 = mmap_bytes(m);
        self.mmap = Some(m);
        proof {
            let new_b = self.bytes_of();
            let dv = values.deep_view();
            assert(new_b.len() == old_b.len());
            assert forall|i: int| 0 <= i < DIGEST_BYTES * start implies new_b[i] == old_b[i] by {
                assert(map1[i] == map0[i]);
            }
            assert forall|j: int, t: int|
                0 <= j < dv.len() && 0 <= t < DIGEST_BYTES implies new_b[DIGEST_BYTES * start
                + DIGEST_BYTES * j + t] == (#[trigger] dv[j][t]) by {
                lemma_mul_inequality(j + 1, k as int, DIGEST_BYTES as int);
                assert(map1[byte_start + DIGEST_BYTES * j + t] == values.deep_view()[j][t]);
            }
            assert forall|i: int|
                DIGEST_BYTES * start + DIGEST_BYTES * dv.len() <= i < new_b.len() implies new_b[i]
                == old_b[i + DIGEST_BYTES * (start + k - start) - DIGEST_BYTES * dv.len()] by {
                assert(map1[i] == map0[i]);
            }
            lemma_chunk_splice(old_b, new_b, start as int, start as int + k as int, dv);
        }
        Ok(())
    }
}

} // verus!
