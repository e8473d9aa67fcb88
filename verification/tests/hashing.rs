use decrust::descriptor::File;
use decrust::descriptor::IoFailure;
use decrust::digest::Cmp;
use decrust::digest::cmp_bytes;

fn sha(content: &[u8]) -> Vec<u8> {
    <sha2::Sha256 as sha2::Digest>::digest(content).to_vec()
}

#[test]
fn compute_hash_is_sha256() {
    let mut f = File::new(String::from("a"), String::from("/a"), 3);
    f.compute_hash(Ok(b"abc".to_vec())).unwrap();
    let d = f.hash.as_ref().unwrap();
    assert_eq!(d.len(), 32);
    assert_eq!(d, &sha(b"abc"));
    // the well-known SHA-256 of "abc" starts ba 78 16 bf
    assert_eq!(d[0], 0xba);
    assert_eq!(d[1], 0x78);
    assert_eq!(d[2], 0x16);
    assert_eq!(d[3], 0xbf);
}

#[test]
fn compute_hash_at_most_once() {
    let mut f = File::new(String::from("a"), String::from("/a"), 3);
    f.compute_hash(Ok(b"abc".to_vec())).unwrap();
    let first = f.hash.clone();
    // a second call never re-reads: even different content is ignored
    f.compute_hash(Ok(b"other".to_vec())).unwrap();
    assert_eq!(f.hash, first);
    // and a failed read after success is a no-op as well
    f.compute_hash(Err(IoFailure {
        path: String::from("/a"),
        detail: String::from("gone"),
    }))
    .unwrap();
    assert_eq!(f.hash, first);
}

#[test]
fn compute_hash_propagates_failure() {
    let mut f = File::new(String::from("a"), String::from("/a"), 3);
    let e = f
        .compute_hash(Err(IoFailure {
            path: String::from("/a"),
            detail: String::from("permission denied"),
        }))
        .unwrap_err();
    assert_eq!(e.path, "/a");
    assert_eq!(e.detail, "permission denied");
    assert!(f.hash.is_none());
}

#[test]
fn byte_order_first_difference_decides() {
    assert!(matches!(cmp_bytes(&vec![1, 2, 3], &vec![1, 3, 0]), Cmp::Less));
    assert!(matches!(cmp_bytes(&vec![1, 3, 0], &vec![1, 2, 3]), Cmp::Greater));
    assert!(matches!(cmp_bytes(&vec![9, 9], &vec![9, 9]), Cmp::Equal));
}

#[test]
fn byte_order_prefix_comes_first() {
    assert!(matches!(cmp_bytes(&vec![1, 2], &vec![1, 2, 0]), Cmp::Less));
    assert!(matches!(cmp_bytes(&vec![1, 2, 0], &vec![1, 2]), Cmp::Greater));
    assert!(matches!(cmp_bytes(&vec![], &vec![]), Cmp::Equal));
    assert!(matches!(cmp_bytes(&vec![], &vec![0]), Cmp::Less));
}
