use vstd::prelude::*;

use crate::arena::{all_digest_sized, splice_seq};
use crate::digest::DIGEST_BYTES;

verus! {

/// The digest sequence encoded by a flat byte string: consecutive 32-byte
/// chunks, a trailing fragment (if any) ignored.
pub open spec fn chunk_digests(b: Seq<u8>) -> Seq<Seq<u8>> {
    Seq::new(
        b.len() / (DIGEST_BYTES as nat),
        |i: int| b.subrange(DIGEST_BYTES * i, DIGEST_BYTES * i + DIGEST_BYTES),
    )
}

/// Each chunk of a byte string is exactly 32 bytes, and the chunk count is
/// the byte count divided by 32.
pub proof fn lemma_chunk_digests_len(b: Seq<u8>)
    ensures
        chunk_digests(b).len() == b.len() / (DIGEST_BYTES as nat),
        all_digest_sized(chunk_digests(b)),
{
}

/// Byte-splice correctness: if `new_b` agrees with `old_b` on the head
/// `[0, 32 * start)`, holds the replacement digests next, and continues with
/// `old_b`'s bytes from `32 * end` on, then chunking `new_b` yields exactly
/// the digest-level splice of chunking `old_b`.
pub proof fn lemma_chunk_splice(
    old_b: Seq<u8>,
    new_b: Seq<u8>,
    start: int,
    end: int,
    repl: Seq<Seq<u8>>,
)
    requires
        old_b.len() % (DIGEST_BYTES as nat) == 0,
        all_digest_sized(repl),
        0 <= start <= end,
        DIGEST_BYTES * end <= old_b.len(),
        new_b.len() == old_b.len() - DIGEST_BYTES * (end - start) + DIGEST_BYTES * repl.len(),
        forall|i: int| 0 <= i < DIGEST_BYTES * start ==> new_b[i] == old_b[i],
        forall|j: int, t: int|
            0 <= j < repl.len() && 0 <= t < DIGEST_BYTES ==> new_b[DIGEST_BYTES * start
                + DIGEST_BYTES * j + t] == (#[trigger] repl[j][t]),
        forall|i: int|
            DIGEST_BYTES * start + DIGEST_BYTES * repl.len() <= i < new_b.len() ==> new_b[i]
                == old_b[i + DIGEST_BYTES * (end - start) - DIGEST_BYTES * repl.len()],
    ensures
        chunk_digests(new_b) == splice_seq(chunk_digests(old_b), start, end, repl),
{
    let d = DIGEST_BYTES as int;
    let old_n = old_b.len() / (DIGEST_BYTES as nat);
    let new_n = new_b.len() / (DIGEST_BYTES as nat);
    let cs = chunk_digests(new_b);
    let ss = splice_seq(chunk_digests(old_b), start, end, repl);
    assert(old_b.len() == d * old_n) by {
        vstd::arithmetic::div_mod::lemma_fundamental_div_mod(old_b.len() as int, d);
    }
    assert(new_b.len() == d * (old_n - (end - start) + repl.len()));
    assert(new_n == old_n - (end - start) + repl.len()) by {
        vstd::arithmetic::div_mod::lemma_div_multiples_vanish(
            old_n - (end - start) + repl.len(),
            d,
        );
    }
    assert(ss.len() == new_n);
    assert forall|k: int| 0 <= k < new_n implies cs[k] == ss[k] by {
        if k < start {
            assert(ss[k] == chunk_digests(old_b)[k]);
            assert(cs[k] =~= chunk_digests(old_b)[k]);
        } else if k < start + repl.len() {
            let j = k - start;
            assert(ss[k] == repl[j]);
            assert forall|t: int| 0 <= t < d implies cs[k][t] == (#[trigger] repl[j][t]) by {
                assert(cs[k][t] == new_b[d * k + t]);
                assert(d * k + t == d * start + d * j + t);
            }
            assert(cs[k] =~= repl[j]);
        } else {
            let k0 = k - start - repl.len() + end;
            assert(end <= k0 < old_n);
            assert(ss[k] == chunk_digests(old_b)[k0]);
            assert(cs[k] =~= chunk_digests(old_b)[k0]);
        }
    }
    assert(cs =~= ss);
}

} // verus!
