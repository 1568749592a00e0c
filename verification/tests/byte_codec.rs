use hash_arena::arena::ArenaBacking;
use hash_arena::digest::Digest;
use hash_arena::errors::ArenaError;
use hash_arena::mmap_backing::AnonMmap;

fn d(b: u8) -> Digest {
    Digest::from_slice(&[b; 32])
}

fn digests(bytes: &[u8]) -> Vec<Digest> {
    bytes.iter().map(|b| d(*b)).collect()
}

#[test]
fn encoding_is_flat_concatenation() {
    let mut a: AnonMmap = ArenaBacking::with_capacity(0).unwrap();
    a.splice_forgetful(0, 0, &digests(&[1, 2])).unwrap();
    let bytes = a.to_bytes();
    let mut expected = vec![1u8; 32];
    expected.extend_from_slice(&[2u8; 32]);
    assert_eq!(bytes, expected);
    assert_eq!(a.len_bytes(), a.len() * 32);
}

#[test]
fn round_trip() {
    let mut a: AnonMmap = ArenaBacking::with_capacity(0).unwrap();
    a.splice_forgetful(0, 0, &digests(&[5, 6, 7])).unwrap();
    let b = AnonMmap::from_bytes(&a.to_bytes()).unwrap();
    assert_eq!(b.len(), a.len());
    for i in 0..a.len() {
        assert_eq!(b.get(i), a.get(i));
    }
    assert!(a.content_eq(&b));
}

#[test]
fn round_trip_empty() {
    let a: AnonMmap = ArenaBacking::with_capacity(0).unwrap();
    let b = AnonMmap::from_bytes(&a.to_bytes()).unwrap();
    assert_eq!(b.len(), 0);
    assert!(a.content_eq(&b));
}

#[test]
fn malformed_bytes_are_rejected() {
    assert!(matches!(
        AnonMmap::from_bytes(&[0u8; 33]),
        Err(ArenaError::MalformedBytes)
    ));
    assert!(matches!(
        AnonMmap::from_bytes(&[0u8; 31]),
        Err(ArenaError::MalformedBytes)
    ));
    // A whole number of digests decodes.
    let a = AnonMmap::from_bytes(&[9u8; 64]).unwrap();
    assert_eq!(a.len(), 2);
    assert_eq!(a.get(0), Some(Digest::from_slice(&[9u8; 64][..32])));
}

#[test]
fn content_eq_compares_populated_bytes_only() {
    let mut a: AnonMmap = ArenaBacking::with_capacity(0).unwrap();
    a.splice_forgetful(0, 0, &digests(&[1, 2])).unwrap();
    // Same digests, different slack capacity.
    let mut b: AnonMmap = ArenaBacking::with_capacity(10).unwrap();
    b.splice_forgetful(0, 0, &digests(&[1, 2])).unwrap();
    assert!(a.content_eq(&b));

    assert!(b.set_digest(1, &d(3)));
    assert!(!a.content_eq(&b));

    let mut c: AnonMmap = ArenaBacking::with_capacity(0).unwrap();
    c.splice_forgetful(0, 0, &digests(&[1])).unwrap();
    assert!(!a.content_eq(&c));
}

#[test]
fn duplicate_is_independent() {
    let mut a: AnonMmap = ArenaBacking::with_capacity(0).unwrap();
    a.splice_forgetful(0, 0, &digests(&[1, 2, 3])).unwrap();
    let c = a.duplicate().unwrap();
    assert!(a.content_eq(&c));
    assert_eq!(c.capacity_bytes(), a.capacity_bytes());

    // Mutating the original must not change the copy.
    assert!(a.set_digest(0, &d(9)));
    assert!(!a.content_eq(&c));
    assert_eq!(c.get(0), Some(d(1)));
}

#[test]
fn default_is_empty() {
    let a = AnonMmap::default();
    assert_eq!(a.len(), 0);
    assert_eq!(a.len_bytes(), 0);
    assert_eq!(a.capacity_bytes(), 0);
    assert_eq!(a.get(0), None);
}

#[test]
fn digest_accessors() {
    let x = Digest::from_slice(&[3u8; 32]);
    assert_eq!(x.as_slice(), &[3u8; 32]);
    assert_eq!(x, d(3));
    assert_ne!(x, d(4));
    let mut bytes = [0u8; 32];
    bytes[0] = 1;
    let y = Digest::from_slice(&bytes);
    assert_eq!(y.as_slice()[0], 1);
    assert_eq!(y.as_slice()[1], 0);
    assert_ne!(x, y);
}
