use hash_arena::arena::ArenaBacking;
use hash_arena::digest::Digest;
use hash_arena::errors::ArenaError;
use hash_arena::mmap_backing::AnonMmap;

fn d(b: u8) -> Digest {
    Digest::from_slice(&[b; 32])
}

fn digests(bytes: &[u8]) -> Vec<Digest> {
    bytes.iter().map(|b| d(*b)).collect()
}

fn scenario<A: ArenaBacking>() {
    // Start with an empty arena.
    let mut a = A::with_capacity(0).unwrap();
    assert_eq!(a.len(), 0);

    // Splice [0,0) with three digests.
    a.splice_forgetful(0, 0, &digests(&[10, 11, 12])).unwrap();
    assert_eq!(a.len(), 3);
    assert_eq!(a.get(1), Some(d(11)));

    // Splice [1,2) (removing the middle digest) with two digests.
    a.splice_forgetful(1, 2, &digests(&[20, 21])).unwrap();
    assert_eq!(a.len(), 4);
    let all = a.iter_range(0, 4).unwrap();
    assert_eq!(all, digests(&[10, 20, 21, 12]));

    // Splice everything away.
    a.splice_forgetful(0, 4, &digests(&[])).unwrap();
    assert_eq!(a.len(), 0);
    assert_eq!(a.get(0), None);
}

#[test]
fn scenario_vec() {
    scenario::<Vec<Digest>>();
}

#[test]
fn scenario_mmap() {
    scenario::<AnonMmap>();
}

fn observe<A: ArenaBacking>(a: &A) -> (usize, Vec<Digest>, Option<Digest>, Option<Digest>) {
    let n = a.len();
    (n, a.iter_range(0, n).unwrap(), a.get(0), a.get(n))
}

#[test]
fn backend_equivalence_differential() {
    let mut v: Vec<Digest> = ArenaBacking::with_capacity(2).unwrap();
    let mut m: AnonMmap = ArenaBacking::with_capacity(2).unwrap();
    let steps: &[(usize, usize, Vec<u8>)] = &[
        (0, 0, vec![1, 2, 3]),
        (1, 2, vec![4, 5]),
        (0, 1, vec![]),
        (3, 3, vec![6, 7, 8, 9]),
        (0, 7, vec![10]),
        (0, 1, vec![]),
        (0, 0, vec![11, 12]),
    ];
    assert_eq!(observe(&v), observe(&m));
    for (start, end, repl) in steps {
        let repl = digests(repl);
        assert_eq!(
            v.splice_forgetful(*start, *end, &repl).is_ok(),
            m.splice_forgetful(*start, *end, &repl).is_ok()
        );
        assert_eq!(observe(&v), observe(&m));
    }
}

fn invalid_ranges<A: ArenaBacking>() {
    let mut a = A::with_capacity(0).unwrap();
    a.splice_forgetful(0, 0, &digests(&[1, 2, 3])).unwrap();

    // End before start.
    assert_eq!(
        a.splice_forgetful(2, 1, &digests(&[9])),
        Err(ArenaError::InvalidRange)
    );
    // End beyond the current length.
    assert_eq!(
        a.splice_forgetful(0, 4, &digests(&[9])),
        Err(ArenaError::InvalidRange)
    );
    // The arena is untouched.
    assert_eq!(a.len(), 3);
    assert_eq!(a.iter_range(0, 3).unwrap(), digests(&[1, 2, 3]));

    // Out-of-bounds reads.
    assert!(matches!(a.iter_range(0, 4), Err(ArenaError::OutOfBounds)));
    assert!(matches!(a.iter_range(2, 1), Err(ArenaError::OutOfBounds)));
    assert_eq!(a.get(3), None);
}

#[test]
fn invalid_ranges_vec() {
    invalid_ranges::<Vec<Digest>>();
}

#[test]
fn invalid_ranges_mmap() {
    invalid_ranges::<AnonMmap>();
}

fn writes<A: ArenaBacking>() {
    let mut a = A::with_capacity(0).unwrap();
    a.splice_forgetful(0, 0, &digests(&[1, 2, 3, 4])).unwrap();

    assert!(a.set_digest(2, &d(30)));
    assert_eq!(a.iter_range(0, 4).unwrap(), digests(&[1, 2, 30, 4]));
    assert!(!a.set_digest(4, &d(40)));
    assert_eq!(a.iter_range(0, 4).unwrap(), digests(&[1, 2, 30, 4]));

    a.set_range(1, &digests(&[21, 22])).unwrap();
    assert_eq!(a.iter_range(0, 4).unwrap(), digests(&[1, 21, 22, 4]));
    assert_eq!(
        a.set_range(3, &digests(&[91, 92])),
        Err(ArenaError::OutOfBounds)
    );
    assert_eq!(a.iter_range(0, 4).unwrap(), digests(&[1, 21, 22, 4]));
}

#[test]
fn writes_vec() {
    writes::<Vec<Digest>>();
}

#[test]
fn writes_mmap() {
    writes::<AnonMmap>();
}

#[test]
fn empty_collapse_and_refill() {
    let mut a: AnonMmap = ArenaBacking::with_capacity(0).unwrap();
    a.splice_forgetful(0, 0, &digests(&[1, 2, 3])).unwrap();
    a.splice_forgetful(0, 3, &digests(&[])).unwrap();
    assert_eq!(a.len(), 0);
    assert_eq!(a.get(0), None);
    assert!(a.iter_range(0, 0).unwrap().is_empty());
    assert_eq!(a.capacity_bytes(), 0);

    a.splice_forgetful(0, 0, &digests(&[7, 8])).unwrap();
    assert_eq!(a.len(), 2);
    assert_eq!(a.iter_range(0, 2).unwrap(), digests(&[7, 8]));
}

#[test]
fn capacity_reuse_in_place() {
    // Reserve room for four digests up front: later splices that fit must
    // reuse the same mapping.
    let mut a: AnonMmap = ArenaBacking::with_capacity(4).unwrap();
    assert_eq!(a.capacity_bytes(), 4 * 32);
    assert_eq!(a.len_bytes(), 0);
    assert_eq!(a.len(), 0);

    a.splice_forgetful(0, 0, &digests(&[1, 2, 3, 4])).unwrap();
    assert_eq!(a.capacity_bytes(), 4 * 32);

    // Pure deletion shifts the tail left within the same mapping.
    a.splice_forgetful(1, 2, &digests(&[])).unwrap();
    assert_eq!(a.iter_range(0, 3).unwrap(), digests(&[1, 3, 4]));
    assert_eq!(a.capacity_bytes(), 4 * 32);
    assert_eq!(a.len_bytes(), 3 * 32);

    // A same-length replacement stays in place too.
    a.splice_forgetful(0, 1, &digests(&[9])).unwrap();
    assert_eq!(a.iter_range(0, 3).unwrap(), digests(&[9, 3, 4]));
    assert_eq!(a.capacity_bytes(), 4 * 32);

    // Growth beyond the reserved room remaps to the exact new size.
    a.splice_forgetful(3, 3, &digests(&[5, 6])).unwrap();
    assert_eq!(a.iter_range(0, 5).unwrap(), digests(&[9, 3, 4, 5, 6]));
    assert_eq!(a.capacity_bytes(), 5 * 32);
}

#[test]
fn extend_capacity_keeps_contents() {
    let mut a: AnonMmap = ArenaBacking::with_capacity(2).unwrap();
    a.splice_forgetful(0, 0, &digests(&[1, 2])).unwrap();
    a.extend_capacity(8).unwrap();
    assert!(a.capacity_bytes() >= 8 * 32);
    assert_eq!(a.iter_range(0, 2).unwrap(), digests(&[1, 2]));

    // Without a mapping, extending reserves nothing.
    let mut e: AnonMmap = ArenaBacking::with_capacity(0).unwrap();
    e.extend_capacity(8).unwrap();
    assert_eq!(e.capacity_bytes(), 0);

    let mut v: Vec<Digest> = ArenaBacking::with_capacity(0).unwrap();
    v.splice_forgetful(0, 0, &digests(&[1, 2])).unwrap();
    ArenaBacking::extend_capacity(&mut v, 8).unwrap();
    assert_eq!(ArenaBacking::iter_range(&v, 0, 2).unwrap(), digests(&[1, 2]));
}

#[test]
fn growth_shift_right_in_place() {
    // Replacement longer than the removed range, still within capacity:
    // the tail shifts right inside the same mapping.
    let mut a: AnonMmap = ArenaBacking::with_capacity(6).unwrap();
    a.splice_forgetful(0, 0, &digests(&[1, 2, 3])).unwrap();
    a.splice_forgetful(1, 2, &digests(&[21, 22, 23, 24])).unwrap();
    assert_eq!(a.capacity_bytes(), 6 * 32);
    assert_eq!(a.iter_range(0, 6).unwrap(), digests(&[1, 21, 22, 23, 24, 3]));
}
