use decrust::descriptor::File;
use decrust::descriptor::IoFailure;
use decrust::tree::AddOutcome;
use decrust::tree::FileTree;

fn fd(name: &str, path: &str, size: u64) -> File {
    File::new(String::from(name), String::from(path), size)
}

fn sha(content: &[u8]) -> Vec<u8> {
    <sha2::Sha256 as sha2::Digest>::digest(content).to_vec()
}

fn lookup(contents: &[(String, Vec<u8>)], path: &str) -> Result<Vec<u8>, IoFailure> {
    for (p, c) in contents {
        if p == path {
            return Ok(c.clone());
        }
    }
    Err(IoFailure { path: String::from(path), detail: String::from("no such file") })
}

/// Drives one insertion the way the scanning collaborator does: performs
/// each content request against the in-memory table until the engine is
/// done.
fn insert_with(
    tree: &mut FileTree,
    file: File,
    contents: &[(String, Vec<u8>)],
) -> Result<(), IoFailure> {
    let mut f = file;
    loop {
        match tree.add_to_tree(f) {
            AddOutcome::Done => return Ok(()),
            AddOutcome::NeedContent { path, of_occupant, pending } => {
                f = pending;
                let bytes = lookup(contents, &path)?;
                if of_occupant {
                    tree.fill_hash(f.size, &bytes);
                } else {
                    f.compute_hash(Ok(bytes))?;
                }
            }
        }
    }
}

fn table(entries: &[(&str, &[u8])]) -> Vec<(String, Vec<u8>)> {
    entries.iter().map(|(p, c)| (String::from(*p), c.to_vec())).collect()
}

#[test]
fn new_tree_is_empty() {
    let t = FileTree::new();
    assert!(t.file.is_none());
    assert!(t.left.is_none());
    assert!(t.right.is_none());
}

#[test]
fn single_insert_needs_no_content() {
    let mut t = FileTree::new();
    let contents = table(&[]);
    insert_with(&mut t, fd("a", "/a", 10), &contents).unwrap();
    let root = t.file.as_ref().unwrap();
    assert_eq!(root.name, "a");
    assert_eq!(root.size, 10);
    assert!(root.hash.is_none());
    assert!(!root.has_dupes);
    assert!(root.next.is_none());
}

#[test]
fn distinct_sizes_never_hash() {
    // Files of pairwise distinct sizes: no content is ever requested,
    // so no digest is ever computed.
    let mut t = FileTree::new();
    let contents = table(&[]);
    insert_with(&mut t, fd("m", "/m", 10), &contents).unwrap();
    insert_with(&mut t, fd("s", "/s", 5), &contents).unwrap();
    insert_with(&mut t, fd("l", "/l", 20), &contents).unwrap();
    let root = t.file.as_ref().unwrap();
    let left = t.left.as_ref().unwrap().file.as_ref().unwrap();
    let right = t.right.as_ref().unwrap().file.as_ref().unwrap();
    assert_eq!(root.name, "m");
    assert_eq!(left.name, "s");
    assert_eq!(right.name, "l");
    assert!(root.hash.is_none());
    assert!(left.hash.is_none());
    assert!(right.hash.is_none());
}

#[test]
fn duplicate_pair_chains_behind_root() {
    // A (10 bytes, "x" * 10), B (same content), C (20 bytes, "y" * 20),
    // inserted in that order: root is A with C in the larger subtree,
    // A is flagged and chains B, C is untouched and unhashed.
    let xs: Vec<u8> = vec![b'x'; 10];
    let ys: Vec<u8> = vec![b'y'; 20];
    let contents = table(&[("/a", &xs[..]), ("/b", &xs[..]), ("/c", &ys[..])]);
    let mut t = FileTree::new();
    insert_with(&mut t, fd("a", "/a", 10), &contents).unwrap();
    insert_with(&mut t, fd("b", "/b", 10), &contents).unwrap();
    insert_with(&mut t, fd("c", "/c", 20), &contents).unwrap();

    let root = t.file.as_ref().unwrap();
    assert_eq!(root.name, "a");
    assert!(root.has_dupes);
    assert_eq!(root.hash.as_ref().unwrap(), &sha(&xs));
    let chained = root.next.as_ref().unwrap();
    assert_eq!(chained.name, "b");
    assert!(!chained.has_dupes);
    assert!(chained.next.is_none());
    assert_eq!(chained.hash.as_ref().unwrap(), &sha(&xs));

    assert!(t.left.is_none());
    let bigger = t.right.as_ref().unwrap();
    assert!(bigger.left.is_none() && bigger.right.is_none());
    let c = bigger.file.as_ref().unwrap();
    assert_eq!(c.name, "c");
    assert!(!c.has_dupes);
    assert!(c.hash.is_none());
}

#[test]
fn size_tie_distinct_content_stays_separate() {
    // Sizes 5, 3, 8, then a second size-3 file with different content:
    // both size-3 files stay as distinct nodes, tied apart by their
    // digests, and neither is flagged as a duplicate.
    let c5: &[u8] = b"aaaaa";
    let c3a: &[u8] = b"one";
    let c8: &[u8] = b"eighteig";
    let c3b: &[u8] = b"two";
    let contents = table(&[("/f5", c5), ("/f3a", c3a), ("/f8", c8), ("/f3b", c3b)]);
    let mut t = FileTree::new();
    insert_with(&mut t, fd("f5", "/f5", 5), &contents).unwrap();
    insert_with(&mut t, fd("f3a", "/f3a", 3), &contents).unwrap();
    insert_with(&mut t, fd("f8", "/f8", 8), &contents).unwrap();
    insert_with(&mut t, fd("f3b", "/f3b", 3), &contents).unwrap();

    assert_eq!(t.file.as_ref().unwrap().name, "f5");
    assert_eq!(t.right.as_ref().unwrap().file.as_ref().unwrap().name, "f8");
    let n3a = t.left.as_ref().unwrap();
    let a = n3a.file.as_ref().unwrap();
    assert_eq!(a.name, "f3a");
    assert!(!a.has_dupes);
    assert!(a.hash.is_some());

    // the second size-3 file hangs off the first, on the side its digest
    // puts it
    let digest_a = sha(c3a);
    let digest_b = sha(c3b);
    let b_node = if digest_b > digest_a {
        assert!(n3a.left.is_none());
        n3a.right.as_ref().unwrap()
    } else {
        assert!(n3a.right.is_none());
        n3a.left.as_ref().unwrap()
    };
    let b = b_node.file.as_ref().unwrap();
    assert_eq!(b.name, "f3b");
    assert!(!b.has_dupes);
    assert!(b.next.is_none());
    assert_eq!(b.hash.as_ref().unwrap(), &digest_b);
}

#[test]
fn three_identical_files_chain_newest_first() {
    let c: &[u8] = b"same bytes";
    let contents = table(&[("/1", c), ("/2", c), ("/3", c)]);
    let mut t = FileTree::new();
    insert_with(&mut t, fd("one", "/1", 10), &contents).unwrap();
    insert_with(&mut t, fd("two", "/2", 10), &contents).unwrap();
    insert_with(&mut t, fd("three", "/3", 10), &contents).unwrap();

    let head = t.file.as_ref().unwrap();
    assert_eq!(head.name, "one");
    assert!(head.has_dupes);
    let first = head.next.as_ref().unwrap();
    assert_eq!(first.name, "three");
    assert!(first.has_dupes);
    let second = first.next.as_ref().unwrap();
    assert_eq!(second.name, "two");
    assert!(!second.has_dupes);
    assert!(second.next.is_none());
    assert!(t.left.is_none() && t.right.is_none());
}

#[test]
fn reinserting_the_same_file_chains_it() {
    // The engine compares by size and content only: handing it the same
    // physical file twice makes the second descriptor a duplicate of the
    // first.
    let c: &[u8] = b"self";
    let contents = table(&[("/same", c)]);
    let mut t = FileTree::new();
    insert_with(&mut t, fd("same", "/same", 4), &contents).unwrap();
    insert_with(&mut t, fd("same", "/same", 4), &contents).unwrap();
    let head = t.file.as_ref().unwrap();
    assert!(head.has_dupes);
    let chained = head.next.as_ref().unwrap();
    assert_eq!(chained.path, "/same");
    assert!(t.left.is_none() && t.right.is_none());
}

#[test]
fn empty_files_are_duplicates() {
    let contents = table(&[("/e1", b""), ("/e2", b"")]);
    let mut t = FileTree::new();
    insert_with(&mut t, fd("e1", "/e1", 0), &contents).unwrap();
    insert_with(&mut t, fd("e2", "/e2", 0), &contents).unwrap();
    let head = t.file.as_ref().unwrap();
    assert!(head.has_dupes);
    assert_eq!(head.hash.as_ref().unwrap(), &sha(b""));
}

#[test]
fn occupant_content_requested_before_arrival() {
    // On the first size tie the engine asks for the occupant's content
    // first, then for the arriving file's, changing nothing meanwhile.
    let mut t = FileTree::new();
    let contents = table(&[]);
    insert_with(&mut t, fd("a", "/a", 7), &contents).unwrap();

    let f = fd("b", "/b", 7);
    let f = match t.add_to_tree(f) {
        AddOutcome::NeedContent { path, of_occupant, pending } => {
            assert_eq!(path, "/a");
            assert!(of_occupant);
            pending
        }
        AddOutcome::Done => panic!("a size tie must request content"),
    };
    // the tree was not touched
    assert!(t.file.as_ref().unwrap().hash.is_none());
    assert!(t.left.is_none() && t.right.is_none());

    assert!(t.fill_hash(7, &b"alpha".to_vec()));
    assert_eq!(t.file.as_ref().unwrap().hash.as_ref().unwrap(), &sha(b"alpha"));
    // a digest once resolved is never filled again
    assert!(!t.fill_hash(7, &b"other".to_vec()));
    assert_eq!(t.file.as_ref().unwrap().hash.as_ref().unwrap(), &sha(b"alpha"));

    let mut f = match t.add_to_tree(f) {
        AddOutcome::NeedContent { path, of_occupant, pending } => {
            assert_eq!(path, "/b");
            assert!(!of_occupant);
            pending
        }
        AddOutcome::Done => panic!("the arriving file's digest is still missing"),
    };
    f.compute_hash(Ok(b"beta".to_vec())).unwrap();
    match t.add_to_tree(f) {
        AddOutcome::Done => {}
        AddOutcome::NeedContent { .. } => panic!("all digests were resolved"),
    }
    // different content, same size: two distinct nodes
    let head = t.file.as_ref().unwrap();
    assert!(!head.has_dupes);
    assert!(t.left.is_some() || t.right.is_some());
}

#[test]
fn sorted_sizes_build_a_right_chain() {
    // Already-sorted sizes degenerate into a linear tree; no balancing
    // is ever attempted.
    let mut t = FileTree::new();
    let contents = table(&[]);
    insert_with(&mut t, fd("a", "/a", 1), &contents).unwrap();
    insert_with(&mut t, fd("b", "/b", 2), &contents).unwrap();
    insert_with(&mut t, fd("c", "/c", 3), &contents).unwrap();
    assert_eq!(t.file.as_ref().unwrap().size, 1);
    assert!(t.left.is_none());
    let n2 = t.right.as_ref().unwrap();
    assert_eq!(n2.file.as_ref().unwrap().size, 2);
    assert!(n2.left.is_none());
    let n3 = n2.right.as_ref().unwrap();
    assert_eq!(n3.file.as_ref().unwrap().size, 3);
    assert!(n3.left.is_none() && n3.right.is_none());
}

#[test]
fn duplicate_found_below_the_root() {
    // The duplicate pair sits in a subtree, not at the root: the merge
    // happens at the node the descent reaches.
    let twenty: Vec<u8> = vec![b'z'; 20];
    let contents = table(&[("/r", b"0123456789"), ("/d1", &twenty[..]), ("/d2", &twenty[..])]);
    let mut t = FileTree::new();
    insert_with(&mut t, fd("r", "/r", 10), &contents).unwrap();
    insert_with(&mut t, fd("d1", "/d1", 20), &contents).unwrap();
    insert_with(&mut t, fd("d2", "/d2", 20), &contents).unwrap();

    let root = t.file.as_ref().unwrap();
    assert_eq!(root.name, "r");
    assert!(!root.has_dupes);
    assert!(root.hash.is_none());

    let sub = t.right.as_ref().unwrap();
    let head = sub.file.as_ref().unwrap();
    assert_eq!(head.name, "d1");
    assert!(head.has_dupes);
    assert_eq!(head.next.as_ref().unwrap().name, "d2");
    assert!(sub.left.is_none() && sub.right.is_none());
}

#[test]
fn fill_hash_without_target_changes_nothing() {
    let mut t = FileTree::new();
    assert!(!t.fill_hash(3, &b"abc".to_vec()));
    assert!(t.file.is_none());
    let contents = table(&[]);
    insert_with(&mut t, fd("a", "/a", 10), &contents).unwrap();
    assert!(!t.fill_hash(3, &b"abc".to_vec()));
    assert!(t.file.as_ref().unwrap().hash.is_none());
}

#[test]
fn missing_file_aborts_insertion() {
    // The driver's table lacks "/b": the tie cannot be resolved, the
    // failure carries the path, and the tree keeps only the first file.
    let xs: Vec<u8> = vec![b'x'; 4];
    let contents = table(&[("/a", &xs[..])]);
    let mut t = FileTree::new();
    insert_with(&mut t, fd("a", "/a", 4), &contents).unwrap();
    let err = insert_with(&mut t, fd("b", "/b", 4), &contents).unwrap_err();
    assert_eq!(err.path, "/b");
    let head = t.file.as_ref().unwrap();
    assert_eq!(head.name, "a");
    assert!(!head.has_dupes);
    assert!(t.left.is_none() && t.right.is_none());
}
