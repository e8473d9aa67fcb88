//! The comparison tree: an unbalanced binary search tree over file
//! descriptors, keyed by size first and, among files of one size, by
//! content digest. Digests are resolved lazily: insertion asks its caller
//! for file content only when two files already share a size.
use vstd::prelude::*;
use crate::descriptor::File;
use crate::digest::Cmp;
use crate::digest::cmp_bytes;
use crate::digest::lex_lt;
use crate::digest::lemma_lex_irrefl;
use crate::digest::lemma_lex_trans;
use crate::digest::sha256_of;
use crate::digest::sha256_bytes;

verus! {

/// A node of the comparison tree: at most one occupant descriptor, plus
/// the subtrees of smaller and larger descriptors. Only the root of a
/// freshly built tree may lack an occupant.
pub struct FileTree {
    pub file: Option<Box<File>>,
    pub left: Option<Box<FileTree>>,
    pub right: Option<Box<FileTree>>,
}

/// Which way one descent step goes.
enum Step {
    Smaller,
    Larger,
    Merge,
}

/// What one insertion step came to.
pub enum AddOutcome {
    /// The descriptor was placed in the tree, or merged into the
    /// duplicate chain of a content-identical occupant.
    Done,
    /// Nothing was changed: the file at `path` must be read and its
    /// digest resolved before the insertion is retried with `pending`.
    /// With `of_occupant` set the digest is owed to the occupant the tie
    /// ran into (`FileTree::fill_hash`); otherwise it is owed to the
    /// pending descriptor itself (`File::compute_hash`).
    NeedContent { path: String, of_occupant: bool, pending: File },
}

/// `d` belongs strictly on the smaller side of occupant `o`: smaller
/// size, or equal size and strictly smaller digest, both resolved.
pub open spec fn below(d: File, o: File) -> bool {
    ||| d.size < o.size
    ||| (d.size == o.size && d.hash is Some && o.hash is Some && lex_lt(d.hash->0@, o.hash->0@))
}

/// `d` belongs strictly on the larger side of occupant `o`.
pub open spec fn above(d: File, o: File) -> bool {
    below(o, d)
}

/// Two descriptors with one size and one resolved digest: the witness of
/// a duplicate.
pub open spec fn key_eq(a: File, b: File) -> bool {
    a.size == b.size && a.hash is Some && b.hash is Some && a.hash->0@ == b.hash->0@
}

/// The head descriptor of a node after a duplicate `f` is merged into
/// occupant `o`: `o` keeps the tree slot and is flagged, and `f` is
/// spliced in right behind it, ahead of `o`'s previous chain.
pub open spec fn merged_head(o: File, f: File) -> File {
    File {
        next: Some(Box::new(File { next: o.next, has_dupes: o.next is Some, ..f })),
        has_dupes: true,
        ..o
    }
}

impl FileTree {
    /// The tree-visible occupants, in symmetric order: smaller subtree,
    /// this node's occupant, larger subtree. Chained duplicates are not
    /// occupants.
    pub open spec fn occs(self) -> Seq<File>
        decreases self,
    {
        (match self.left {
            None => Seq::<File>::empty(),
            Some(l) => l.occs(),
        }) + (match self.file {
            None => Seq::<File>::empty(),
            Some(f) => seq![*f],
        }) + (match self.right {
            None => Seq::<File>::empty(),
            Some(r) => r.occs(),
        })
    }

    /// Well-formedness: an occupant-less node is an empty root with no
    /// children; otherwise every occupant of the smaller subtree lies
    /// strictly below this node's occupant and every occupant of the
    /// larger subtree strictly above it — in particular, two occupants
    /// share a size only once both digests are resolved — children are
    /// occupied, and every occupant's duplicate chain is well formed.
    pub open spec fn wf(self) -> bool
        decreases self,
    {
        match self.file {
            None => self.left is None && self.right is None,
            Some(o) => {
                &&& o.wf()
                &&& match self.left {
                    None => true,
                    Some(l) => {
                        &&& l.file is Some
                        &&& l.wf()
                        &&& forall|i: int|
                            0 <= i < l.occs().len() ==> below(#[trigger] l.occs()[i], *o)
                    },
                }
                &&& match self.right {
                    None => true,
                    Some(r) => {
                        &&& r.file is Some
                        &&& r.wf()
                        &&& forall|i: int|
                            0 <= i < r.occs().len() ==> above(#[trigger] r.occs()[i], *o)
                    },
                }
            },
        }
    }

    /// Where descending with `f` would land, once all digests on the way
    /// are resolved: the tree after the insertion. On a size tie the
    /// digests decide, and equal digests merge `f` into the occupant's
    /// duplicate chain.
    pub open spec fn spec_insert(self, f: File) -> FileTree
        decreases self,
    {
        match self.file {
            None => FileTree { file: Some(Box::new(f)), ..self },
            Some(o) => {
                if f.size > o.size || (f.size == o.size && lex_lt(o.hash->0@, f.hash->0@)) {
                    match self.right {
                        None => FileTree {
                            right: Some(
                                Box::new(
                                    FileTree { file: Some(Box::new(f)), left: None, right: None },
                                ),
                            ),
                            ..self
                        },
                        Some(r) => FileTree { right: Some(Box::new(r.spec_insert(f))), ..self },
                    }
                } else if f.size < o.size || (f.size == o.size && lex_lt(
                    f.hash->0@,
                    o.hash->0@,
                )) {
                    match self.left {
                        None => FileTree {
                            left: Some(
                                Box::new(
                                    FileTree { file: Some(Box::new(f)), left: None, right: None },
                                ),
                            ),
                            ..self
                        },
                        Some(l) => FileTree { left: Some(Box::new(l.spec_insert(f))), ..self },
                    }
                } else {
                    FileTree { file: Some(Box::new(merged_head(*o, f))), ..self }
                }
            },
        }
    }

    /// The content the engine still needs before it can insert `f`,
    /// as (whether an occupant's digest is owed, whose file's path): the
    /// first occupant met on a size tie whose digest is unresolved, else
    /// `f` itself if a tie was met and `f` has no digest, else nothing.
    pub open spec fn spec_needed(self, f: File) -> Option<(bool, Seq<char>)>
        decreases self,
    {
        match self.file {
            None => None,
            Some(o) => {
                if f.size > o.size {
                    match self.right {
                        None => None,
                        Some(r) => r.spec_needed(f),
                    }
                } else if f.size < o.size {
                    match self.left {
                        None => None,
                        Some(l) => l.spec_needed(f),
                    }
                } else if o.hash is None {
                    Some((true, o.path@))
                } else if f.hash is None {
                    Some((false, f.path@))
                } else if lex_lt(o.hash->0@, f.hash->0@) {
                    match self.right {
                        None => None,
                        Some(r) => r.spec_needed(f),
                    }
                } else if lex_lt(f.hash->0@, o.hash->0@) {
                    match self.left {
                        None => None,
                        Some(l) => l.spec_needed(f),
                    }
                } else {
                    None
                }
            },
        }
    }

    /// Whether descending by `size` meets an occupant of that size whose
    /// digest is still unresolved.
    pub open spec fn spec_has_unhashed(self, size: u64) -> bool
        decreases self,
    {
        match self.file {
            None => false,
            Some(o) => {
                if size > o.size {
                    match self.right {
                        None => false,
                        Some(r) => r.spec_has_unhashed(size),
                    }
                } else if size < o.size {
                    match self.left {
                        None => false,
                        Some(l) => l.spec_has_unhashed(size),
                    }
                } else {
                    o.hash is None
                }
            },
        }
    }

    /// The tree after the occupant found by `spec_has_unhashed` gets the
    /// digest `d`; unchanged where there is none to fill.
    pub open spec fn spec_fill(self, size: u64, d: Vec<u8>) -> FileTree
        decreases self,
    {
        match self.file {
            None => self,
            Some(o) => {
                if size > o.size {
                    match self.right {
                        None => self,
                        Some(r) => FileTree { right: Some(Box::new(r.spec_fill(size, d))), ..self },
                    }
                } else if size < o.size {
                    match self.left {
                        None => self,
                        Some(l) => FileTree { left: Some(Box::new(l.spec_fill(size, d))), ..self },
                    }
                } else if o.hash is None {
                    FileTree { file: Some(Box::new(File { hash: Some(d), ..*o })), ..self }
                } else {
                    self
                }
            },
        }
    }

    /// A new, empty comparison tree.
    pub fn new() -> (t: FileTree)
        ensures
            t == (FileTree {
                file: None::<Box<File>>,
                left: None::<Box<FileTree>>,
                right: None::<Box<FileTree>>,
            }),
            t.wf(),
            t.occs() == Seq::<File>::empty(),
    {
        let t = FileTree { file: None, left: None, right: None };
        proof {
            assert(t.occs() =~= Seq::<File>::empty());
        }
        t
    }

    /// One insertion step. Descends by size, then — only among files of
    /// one size — by digest. If a digest needed for the descent is not
    /// resolved yet, nothing is changed and the caller is asked for the
    /// file's content; otherwise the descriptor is placed, or merged into
    /// the duplicate chain of a content-identical occupant.
    pub fn add_to_tree(&mut self, f: File) -> (r: AddOutcome)
        requires
            old(self).wf(),
            f.unchained(),
            f.digest_wf(),
        ensures
            match r {
                AddOutcome::Done => {
                    &&& *final(self) == old(self).spec_insert(f)
                    &&& old(self).spec_needed(f) is None
                    &&& final(self).wf()
                },
                AddOutcome::NeedContent { path, of_occupant, pending } => {
                    &&& *final(self) == *old(self)
                    &&& pending == f
                    &&& old(self).spec_needed(f) matches Some(p) && path@ == p.1 && of_occupant
                        == p.0
                },
            },
        decreases *old(self),
    {
        if self.file.is_none() {
            self.file = Some(Box::new(f));
            proof {
                lemma_insert_wf(*old(self), f);
            }
            return AddOutcome::Done;
        }
        let step: Step;
        {
            let o = self.file.as_ref().unwrap();
            if f.size > o.size {
                step = Step::Larger;
            } else if f.size < o.size {
                step = Step::Smaller;
            } else {
                if o.hash.is_none() {
                    return AddOutcome::NeedContent {
                        path: o.path.clone(),
                        of_occupant: true,
                        pending: f,
                    };
                }
                if f.hash.is_none() {
                    let path = f.path.clone();
                    return AddOutcome::NeedContent { path, of_occupant: false, pending: f };
                }
                match cmp_bytes(o.hash.as_ref().unwrap(), f.hash.as_ref().unwrap()) {
                    Cmp::Less => {
                        step = Step::Larger;
                    },
                    Cmp::Greater => {
                        step = Step::Smaller;
                    },
                    Cmp::Equal => {
                        proof {
                            crate::digest::lemma_lex_irrefl(
                                old(self).file->0.hash->0@,
                                f.hash->0@,
                            );
                        }
                        step = Step::Merge;
                    },
                }
            }
        }
        match step {
            Step::Merge => {
                let ob = self.file.take().unwrap();
                let mut o: File = *ob;
                let chain = o.next.take();
                let mut fd = f;
                fd.has_dupes = chain.is_some();
                fd.next = chain;
                o.next = Some(Box::new(fd));
                o.has_dupes = true;
                self.file = Some(Box::new(o));
                proof {
                    lemma_insert_wf(*old(self), f);
                }
                AddOutcome::Done
            },
            Step::Larger => {
                match self.right.take() {
                    None => {
                        self.right = Some(
                            Box::new(FileTree { file: Some(Box::new(f)), left: None, right: None }),
                        );
                        proof {
                            lemma_insert_wf(*old(self), f);
                        }
                        AddOutcome::Done
                    },
                    Some(mut rt) => {
                        let out = (&mut *rt).add_to_tree(f);
                        self.right = Some(rt);
                        proof {
                            if out is Done {
                                lemma_insert_wf(*old(self), f);
                            }
                        }
                        out
                    },
                }
            },
            Step::Smaller => {
                match self.left.take() {
                    None => {
                        self.left = Some(
                            Box::new(FileTree { file: Some(Box::new(f)), left: None, right: None }),
                        );
                        proof {
                            lemma_insert_wf(*old(self), f);
                        }
                        AddOutcome::Done
                    },
                    Some(mut lt) => {
                        let out = (&mut *lt).add_to_tree(f);
                        self.left = Some(lt);
                        proof {
                            if out is Done {
                                lemma_insert_wf(*old(self), f);
                            }
                        }
                        out
                    },
                }
            },
        }
    }

    /// Resolve the digest of the occupant that a size tie with `size`
    /// ran into, from that occupant's file content. Digests already
    /// resolved are never touched; without an occupant of that size
    /// awaiting a digest, the tree is left as it is.
    pub fn fill_hash(&mut self, size: u64, content: &Vec<u8>) -> (filled: bool)
        ensures
            filled == old(self).spec_has_unhashed(size),
            !old(self).spec_has_unhashed(size) ==> *final(self) == *old(self),
            old(self).spec_has_unhashed(size) ==> exists|d: Vec<u8>|
                d@ == sha256_of(content@) && d@.len() == 32 && *final(self) == old(self).spec_fill(
                    size,
                    d,
                ),
            old(self).wf() ==> final(self).wf(),
        decreases *old(self),
    {
        if self.file.is_none() {
            return false;
        }
        let step: Step;
        {
            let o = self.file.as_ref().unwrap();
            if size > o.size {
                step = Step::Larger;
            } else if size < o.size {
                step = Step::Smaller;
            } else {
                step = Step::Merge;
            }
        }
        match step {
            Step::Merge => {
                let ob = self.file.take().unwrap();
                let mut o: File = *ob;
                if o.hash.is_none() {
                    let d = sha256_bytes(content);
                    o.hash = Some(d);
                    self.file = Some(Box::new(o));
                    proof {
                        let dv = self.file->0.hash->0;
                        assert(dv@ == sha256_of(content@) && dv@.len() == 32 && *self == old(
                            self,
                        ).spec_fill(size, dv));
                        if old(self).wf() {
                            lemma_fill_wf(*old(self), size, dv);
                        }
                    }
                    true
                } else {
                    self.file = Some(Box::new(o));
                    false
                }
            },
            Step::Larger => {
                match self.right.take() {
                    None => false,
                    Some(mut rt) => {
                        let filled = (&mut *rt).fill_hash(size, content);
                        self.right = Some(rt);
                        proof {
                            if old(self).spec_has_unhashed(size) {
                                let d = choose|d: Vec<u8>|
                                    d@ == sha256_of(content@) && d@.len() == 32 && *rt == old(
                                        self,
                                    ).right->0.spec_fill(size, d);
                                assert(d@ == sha256_of(content@) && d@.len() == 32 && *self == old(
                                    self,
                                ).spec_fill(size, d));
                                if old(self).wf() {
                                    lemma_fill_wf(*old(self), size, d);
                                }
                            }
                        }
                        filled
                    },
                }
            },
            Step::Smaller => {
                match self.left.take() {
                    None => false,
                    Some(mut lt) => {
                        let filled = (&mut *lt).fill_hash(size, content);
                        self.left = Some(lt);
                        proof {
                            if old(self).spec_has_unhashed(size) {
                                let d = choose|d: Vec<u8>|
                                    d@ == sha256_of(content@) && d@.len() == 32 && *lt == old(
                                        self,
                                    ).left->0.spec_fill(size, d);
                                assert(d@ == sha256_of(content@) && d@.len() == 32 && *self == old(
                                    self,
                                ).spec_fill(size, d));
                                if old(self).wf() {
                                    lemma_fill_wf(*old(self), size, d);
                                }
                            }
                        }
                        filled
                    },
                }
            },
        }
    }
}

/// Some occupant already carries `f`'s size and digest.
pub open spec fn has_match(t: FileTree, f: File) -> bool {
    exists|i: int| 0 <= i < t.occs().len() && key_eq(#[trigger] t.occs()[i], f)
}

proof fn lemma_above_no_match(o: File, f: File)
    requires
        above(f, o),
    ensures
        !key_eq(o, f),
{
    if key_eq(o, f) {
        lemma_lex_irrefl(o.hash->0@, f.hash->0@);
    }
}

proof fn lemma_below_no_match(o: File, f: File)
    requires
        below(f, o),
    ensures
        !key_eq(o, f),
{
    if key_eq(o, f) {
        lemma_lex_irrefl(f.hash->0@, o.hash->0@);
    }
}

proof fn lemma_cross_no_match(x: File, o: File, f: File)
    requires
        below(x, o),
        above(f, o),
    ensures
        !key_eq(x, f),
{
    if key_eq(x, f) {
        if x.size == o.size && o.size == f.size {
            lemma_lex_trans(x.hash->0@, o.hash->0@, f.hash->0@);
            lemma_lex_irrefl(x.hash->0@, f.hash->0@);
        }
    }
}

proof fn lemma_cross_no_match_rev(x: File, o: File, f: File)
    requires
        above(x, o),
        below(f, o),
    ensures
        !key_eq(x, f),
{
    if key_eq(x, f) {
        if x.size == o.size && o.size == f.size {
            lemma_lex_trans(f.hash->0@, o.hash->0@, x.hash->0@);
            lemma_lex_irrefl(f.hash->0@, x.hash->0@);
        }
    }
}

/// What one insertion does to the tree-visible occupants, once every
/// digest on the descent is resolved: a descriptor whose size and digest
/// an occupant already carries replaces that occupant — in place — by
/// its merged head; any other descriptor becomes one new occupant, and
/// nobody else is touched.
pub proof fn lemma_insert_occs(t: FileTree, f: File)
    requires
        t.wf(),
        t.spec_needed(f) is None,
    ensures
        has_match(t, f) ==> exists|i: int|
            0 <= i < t.occs().len() && key_eq(#[trigger] t.occs()[i], f) && t.spec_insert(
                f,
            ).occs() == t.occs().update(i, merged_head(t.occs()[i], f)),
        !has_match(t, f) ==> exists|i: int|
            0 <= i <= t.occs().len() && t.spec_insert(f).occs() == t.occs().insert(i, f),
    decreases t, 1int,
{
    let t2 = t.spec_insert(f);
    match t.file {
        None => {
            assert(t.occs() =~= Seq::<File>::empty());
            assert(t2.occs() =~= seq![f]);
            assert(t2.occs() =~= t.occs().insert(0, f));
        },
        Some(o) => {
            let lseq = match t.left {
                None => Seq::<File>::empty(),
                Some(l) => l.occs(),
            };
            let rseq = match t.right {
                None => Seq::<File>::empty(),
                Some(r) => r.occs(),
            };
            let nl: int = lseq.len() as int;
            assert(t.occs() == lseq + seq![*o] + rseq);
            assert(t.occs()[nl] == *o);
            if f.size > o.size || (f.size == o.size && lex_lt(o.hash->0@, f.hash->0@)) {
                lemma_insert_occs_larger(t, f);
            } else if f.size < o.size || (f.size == o.size && lex_lt(f.hash->0@, o.hash->0@)) {
                lemma_insert_occs_smaller(t, f);
            } else {
                assert(f.size == o.size);
                assert(o.hash is Some && f.hash is Some);
                crate::digest::lemma_lex_connex(o.hash->0@, f.hash->0@);
                assert(key_eq(*o, f));
                assert(t2.occs() =~= t.occs().update(nl, merged_head(*o, f)));
                assert(has_match(t, f));
            }
        },
    }
}

proof fn lemma_insert_occs_larger(t: FileTree, f: File)
    requires
        t.wf(),
        t.spec_needed(f) is None,
        t.file matches Some(o) && (f.size > o.size || (f.size == o.size && lex_lt(
            o.hash->0@,
            f.hash->0@,
        ))),
    ensures
        has_match(t, f) ==> exists|i: int|
            0 <= i < t.occs().len() && key_eq(#[trigger] t.occs()[i], f) && t.spec_insert(
                f,
            ).occs() == t.occs().update(i, merged_head(t.occs()[i], f)),
        !has_match(t, f) ==> exists|i: int|
            0 <= i <= t.occs().len() && t.spec_insert(f).occs() == t.occs().insert(i, f),
    decreases t, 0int,
{
    let t2 = t.spec_insert(f);
    match t.file {
        None => {},
        Some(o) => {
            let lseq = match t.left {
                None => Seq::<File>::empty(),
                Some(l) => l.occs(),
            };
            let rseq = match t.right {
                None => Seq::<File>::empty(),
                Some(r) => r.occs(),
            };
            let nl: int = lseq.len() as int;
            assert(t.occs() == lseq + seq![*o] + rseq);
            assert(t.occs()[nl] == *o);
            assert(above(f, *o));
            assert forall|i: int| 0 <= i < nl implies !key_eq(#[trigger] t.occs()[i], f) by {
                assert(t.occs()[i] == lseq[i]);
                assert(below(lseq[i], *o));
                lemma_cross_no_match(lseq[i], *o, f);
            }
            lemma_above_no_match(*o, f);
            match t.right {
                None => {
                    let leaf = FileTree { file: Some(Box::new(f)), left: None, right: None };
                    assert(leaf.occs() =~= seq![f]);
                    assert(t2.occs() == lseq + seq![*o] + leaf.occs());
                    assert(t2.occs() =~= t.occs().insert(nl + 1, f)) by {
                        t.occs().insert_ensures(nl + 1, f);
                    }
                    assert(!has_match(t, f));
                },
                Some(r) => {
                    lemma_insert_occs(*r, f);
                    let r2 = r.spec_insert(f);
                    assert(t2.occs() == lseq + seq![*o] + r2.occs());
                    if has_match(*r, f) {
                        let ir: int = choose|i: int|
                            0 <= i < r.occs().len() && key_eq(#[trigger] r.occs()[i], f)
                                && r2.occs() == r.occs().update(
                                i,
                                merged_head(r.occs()[i], f),
                            );
                        let i: int = nl + 1 + ir;
                        assert(t.occs()[i] == rseq[ir]);
                        assert(t2.occs() =~= t.occs().update(i, merged_head(t.occs()[i], f)));
                        assert(has_match(t, f));
                    } else {
                        let ir: int = choose|i: int|
                            0 <= i <= r.occs().len() && r2.occs() == r.occs().insert(i, f);
                        let i: int = nl + 1 + ir;
                        assert(t2.occs() =~= t.occs().insert(i, f)) by {
                            r.occs().insert_ensures(ir, f);
                            t.occs().insert_ensures(i, f);
                        }
                        assert(!has_match(t, f)) by {
                            if has_match(t, f) {
                                let j: int = choose|j: int|
                                    0 <= j < t.occs().len() && key_eq(
                                        #[trigger] t.occs()[j],
                                        f,
                                    );
                                if j > nl {
                                    assert(t.occs()[j] == rseq[j - nl - 1]);
                                    assert(has_match(*r, f));
                                }
                            }
                        }
                    }
                },
            }
        },
    }
}

proof fn lemma_insert_occs_smaller(t: FileTree, f: File)
    requires
        t.wf(),
        t.spec_needed(f) is None,
        t.file matches Some(o) && !(f.size > o.size || (f.size == o.size && lex_lt(
            o.hash->0@,
            f.hash->0@,
        ))) && (f.size < o.size || (f.size == o.size && lex_lt(f.hash->0@, o.hash->0@))),
    ensures
        has_match(t, f) ==> exists|i: int|
            0 <= i < t.occs().len() && key_eq(#[trigger] t.occs()[i], f) && t.spec_insert(
                f,
            ).occs() == t.occs().update(i, merged_head(t.occs()[i], f)),
        !has_match(t, f) ==> exists|i: int|
            0 <= i <= t.occs().len() && t.spec_insert(f).occs() == t.occs().insert(i, f),
    decreases t, 0int,
{
    let t2 = t.spec_insert(f);
    match t.file {
        None => {},
        Some(o) => {
            let lseq = match t.left {
                None => Seq::<File>::empty(),
                Some(l) => l.occs(),
            };
            let rseq = match t.right {
                None => Seq::<File>::empty(),
                Some(r) => r.occs(),
            };
            let nl: int = lseq.len() as int;
            assert(t.occs() == lseq + seq![*o] + rseq);
            assert(t.occs()[nl] == *o);
            assert(below(f, *o));
            assert forall|i: int|
                nl + 1 <= i < t.occs().len() implies !key_eq(#[trigger] t.occs()[i], f) by {
                assert(t.occs()[i] == rseq[i - nl - 1]);
                assert(above(rseq[i - nl - 1], *o));
                lemma_cross_no_match_rev(rseq[i - nl - 1], *o, f);
            }
            lemma_below_no_match(*o, f);
            match t.left {
                None => {
                    let leaf = FileTree { file: Some(Box::new(f)), left: None, right: None };
                    assert(leaf.occs() =~= seq![f]);
                    assert(t2.occs() == leaf.occs() + seq![*o] + rseq);
                    assert(t2.occs() =~= t.occs().insert(0, f)) by {
                        t.occs().insert_ensures(0, f);
                    }
                    assert(!has_match(t, f));
                },
                Some(l) => {
                    lemma_insert_occs(*l, f);
                    let l2 = l.spec_insert(f);
                    assert(t2.occs() == l2.occs() + seq![*o] + rseq);
                    if has_match(*l, f) {
                        let il: int = choose|i: int|
                            0 <= i < l.occs().len() && key_eq(#[trigger] l.occs()[i], f)
                                && l2.occs() == l.occs().update(
                                i,
                                merged_head(l.occs()[i], f),
                            );
                        assert(t.occs()[il] == lseq[il]);
                        assert(t2.occs() =~= t.occs().update(il, merged_head(t.occs()[il], f)));
                        assert(has_match(t, f));
                    } else {
                        let il: int = choose|i: int|
                            0 <= i <= l.occs().len() && l2.occs() == l.occs().insert(i, f);
                        assert(t2.occs() =~= t.occs().insert(il, f)) by {
                            l.occs().insert_ensures(il, f);
                            t.occs().insert_ensures(il, f);
                        }
                        assert(!has_match(t, f)) by {
                            if has_match(t, f) {
                                let j: int = choose|j: int|
                                    0 <= j < t.occs().len() && key_eq(
                                        #[trigger] t.occs()[j],
                                        f,
                                    );
                                if j < nl {
                                    assert(t.occs()[j] == lseq[j]);
                                    assert(has_match(*l, f));
                                }
                            }
                        }
                    }
                },
            }
        },
    }
}

/// Merging preserves a well-formed duplicate chain: the head keeps its
/// key, is flagged, and the arrival stands first in its chain.
proof fn lemma_merged_head_wf(o: File, f: File)
    requires
        o.wf(),
        f.unchained(),
        key_eq(o, f),
    ensures
        merged_head(o, f).wf(),
{
    let fd = File { next: o.next, has_dupes: o.next is Some, ..f };
    assert(fd.chain_wf()) by {
        match o.next {
            None => {},
            Some(n) => {
                assert(n.chain_wf());
            },
        }
    }
    assert(merged_head(o, f).chain_wf());
}

/// Inserting a resolved descriptor keeps the tree well formed and the
/// root occupied.
pub proof fn lemma_insert_wf(t: FileTree, f: File)
    requires
        t.wf(),
        f.unchained(),
        f.digest_wf(),
        t.spec_needed(f) is None,
    ensures
        t.spec_insert(f).wf(),
        t.spec_insert(f).file is Some,
    decreases t,
{
    let t2 = t.spec_insert(f);
    match t.file {
        None => {
            assert(f.chain_wf());
        },
        Some(o) => {
            let lseq = match t.left {
                None => Seq::<File>::empty(),
                Some(l) => l.occs(),
            };
            let rseq = match t.right {
                None => Seq::<File>::empty(),
                Some(r) => r.occs(),
            };
            if f.size > o.size || (f.size == o.size && lex_lt(o.hash->0@, f.hash->0@)) {
                assert(above(f, *o));
                match t.right {
                    None => {
                        let leaf = FileTree { file: Some(Box::new(f)), left: None, right: None };
                        assert(f.chain_wf());
                        assert(leaf.wf());
                        assert(leaf.occs() =~= seq![f]);
                        assert(t2.wf());
                    },
                    Some(r) => {
                        lemma_insert_wf(*r, f);
                        lemma_insert_occs(*r, f);
                        let r2 = r.spec_insert(f);
                        assert forall|i: int|
                            0 <= i < r2.occs().len() implies above(#[trigger] r2.occs()[i], *o) by {
                            if has_match(*r, f) {
                                let ir: int = choose|k: int|
                                    0 <= k < r.occs().len() && key_eq(#[trigger] r.occs()[k], f)
                                        && r2.occs() == r.occs().update(
                                        k,
                                        merged_head(r.occs()[k], f),
                                    );
                                if i == ir {
                                    assert(above(r.occs()[ir], *o));
                                    assert(r2.occs()[i] == merged_head(r.occs()[ir], f));
                                } else {
                                    assert(r2.occs()[i] == r.occs()[i]);
                                }
                            } else {
                                let ir: int = choose|k: int|
                                    0 <= k <= r.occs().len() && r2.occs() == r.occs().insert(k, f);
                                r.occs().insert_ensures(ir, f);
                                if i < ir {
                                    assert(r2.occs()[i] == r.occs()[i]);
                                } else if i == ir {
                                    assert(r2.occs()[i] == f);
                                } else {
                                    assert(r2.occs()[i] == r.occs()[i - 1]);
                                }
                            }
                        }
                        assert(t2.wf());
                    },
                }
            } else if f.size < o.size || (f.size == o.size && lex_lt(f.hash->0@, o.hash->0@)) {
                assert(below(f, *o));
                match t.left {
                    None => {
                        let leaf = FileTree { file: Some(Box::new(f)), left: None, right: None };
                        assert(f.chain_wf());
                        assert(leaf.wf());
                        assert(leaf.occs() =~= seq![f]);
                        assert(t2.wf());
                    },
                    Some(l) => {
                        lemma_insert_wf(*l, f);
                        lemma_insert_occs(*l, f);
                        let l2 = l.spec_insert(f);
                        assert forall|i: int|
                            0 <= i < l2.occs().len() implies below(#[trigger] l2.occs()[i], *o) by {
                            if has_match(*l, f) {
                                let il: int = choose|k: int|
                                    0 <= k < l.occs().len() && key_eq(#[trigger] l.occs()[k], f)
                                        && l2.occs() == l.occs().update(
                                        k,
                                        merged_head(l.occs()[k], f),
                                    );
                                if i == il {
                                    assert(below(l.occs()[il], *o));
                                    assert(l2.occs()[i] == merged_head(l.occs()[il], f));
                                } else {
                                    assert(l2.occs()[i] == l.occs()[i]);
                                }
                            } else {
                                let il: int = choose|k: int|
                                    0 <= k <= l.occs().len() && l2.occs() == l.occs().insert(k, f);
                                l.occs().insert_ensures(il, f);
                                if i < il {
                                    assert(l2.occs()[i] == l.occs()[i]);
                                } else if i == il {
                                    assert(l2.occs()[i] == f);
                                } else {
                                    assert(l2.occs()[i] == l.occs()[i - 1]);
                                }
                            }
                        }
                        assert(t2.wf());
                    },
                }
            } else {
                assert(f.size == o.size);
                assert(o.hash is Some && f.hash is Some);
                crate::digest::lemma_lex_connex(o.hash->0@, f.hash->0@);
                assert(key_eq(*o, f));
                lemma_merged_head_wf(*o, f);
                let m = merged_head(*o, f);
                assert forall|i: int| 0 <= i < lseq.len() implies below(#[trigger] lseq[i], m) by {
                    assert(below(lseq[i], *o));
                }
                assert forall|i: int| 0 <= i < rseq.len() implies above(#[trigger] rseq[i], m) by {
                    assert(above(rseq[i], *o));
                }
                assert(t2.wf());
            }
        },
    }
}

/// Size ordering: every descriptor in a node's smaller subtree has a
/// smaller size than the node's occupant — or the same size and, both
/// digests resolved, a strictly smaller digest — and symmetrically for
/// the larger subtree. Holding at every node (children are well formed
/// in turn), this is the order the whole tree is arranged in.
pub proof fn lemma_size_ordering(t: FileTree)
    requires
        t.wf(),
    ensures
        t.file matches Some(o) ==> {
            &&& (t.left matches Some(l) ==> forall|i: int|
                0 <= i < l.occs().len() ==> ((#[trigger] l.occs()[i]).size < o.size || (
                l.occs()[i].size == o.size && l.occs()[i].hash is Some && o.hash is Some && lex_lt(
                    l.occs()[i].hash->0@,
                    o.hash->0@,
                ))))
            &&& (t.right matches Some(r) ==> forall|i: int|
                0 <= i < r.occs().len() ==> ((#[trigger] r.occs()[i]).size > o.size || (
                r.occs()[i].size == o.size && r.occs()[i].hash is Some && o.hash is Some && lex_lt(
                    o.hash->0@,
                    r.occs()[i].hash->0@,
                ))))
        },
{
}

/// Hash only on a tie: while no occupant shares `f`'s size, inserting
/// `f` asks for no file content at all — no digest is ever computed as
/// a side effect of comparing differently sized files.
pub proof fn lemma_no_tie_no_hashing(t: FileTree, f: File)
    requires
        t.wf(),
        forall|i: int| 0 <= i < t.occs().len() ==> (#[trigger] t.occs()[i]).size != f.size,
    ensures
        t.spec_needed(f) is None,
    decreases t,
{
    match t.file {
        None => {},
        Some(o) => {
            let lseq = match t.left {
                None => Seq::<File>::empty(),
                Some(l) => l.occs(),
            };
            let rseq = match t.right {
                None => Seq::<File>::empty(),
                Some(r) => r.occs(),
            };
            let nl: int = lseq.len() as int;
            assert(t.occs() == lseq + seq![*o] + rseq);
            assert(t.occs()[nl] == *o);
            assert(o.size != f.size);
            if f.size > o.size {
                match t.right {
                    None => {},
                    Some(r) => {
                        assert forall|i: int|
                            0 <= i < r.occs().len() implies (#[trigger] r.occs()[i]).size
                            != f.size by {
                            assert(r.occs()[i] == t.occs()[nl + 1 + i]);
                        }
                        lemma_no_tie_no_hashing(*r, f);
                    },
                }
            } else {
                match t.left {
                    None => {},
                    Some(l) => {
                        assert forall|i: int|
                            0 <= i < l.occs().len() implies (#[trigger] l.occs()[i]).size
                            != f.size by {
                            assert(l.occs()[i] == t.occs()[i]);
                        }
                        lemma_no_tie_no_hashing(*l, f);
                    },
                }
            }
        },
    }
}

/// Duplicate detection: a descriptor carrying the size and digest of an
/// existing occupant never becomes a new node — exactly that occupant
/// is replaced, in place, by its merged head, and nobody else moves.
pub proof fn lemma_duplicate_merges(t: FileTree, f: File)
    requires
        t.wf(),
        t.spec_needed(f) is None,
        has_match(t, f),
    ensures
        t.spec_insert(f).occs().len() == t.occs().len(),
        exists|i: int|
            0 <= i < t.occs().len() && key_eq(#[trigger] t.occs()[i], f) && t.spec_insert(
                f,
            ).occs() == t.occs().update(i, merged_head(t.occs()[i], f)),
{
    lemma_insert_occs(t, f);
}

/// What a merged head is: the occupant keeps its name, path, size,
/// digest and tree slot, gains `has_dupes`, and its duplicate chain now
/// lists the new arrival first, ahead of any duplicates found earlier.
pub proof fn lemma_merged_head_chain(o: File, f: File)
    ensures
        merged_head(o, f).has_dupes,
        merged_head(o, f).name == o.name && merged_head(o, f).path == o.path && merged_head(
            o,
            f,
        ).size == o.size && merged_head(o, f).hash == o.hash,
        merged_head(o, f).chain() == seq![
            (File { next: o.next, has_dupes: o.next is Some, ..f }),
        ] + o.chain(),
        merged_head(o, f).chain().len() == o.chain().len() + 1,
        merged_head(o, f).chain()[0].name == f.name && merged_head(o, f).chain()[0].path == f.path
            && merged_head(o, f).chain()[0].size == f.size && merged_head(o, f).chain()[0].hash
            == f.hash,
{
    let fd = File { next: o.next, has_dupes: o.next is Some, ..f };
    assert(fd.chain() =~= o.chain()) by {
        match o.next {
            None => {},
            Some(n) => {},
        }
    }
    assert(merged_head(o, f).chain() =~= seq![fd] + o.chain());
}

/// No false duplicates: a descriptor that shares a size but not a
/// digest with every occupant becomes one new occupant — `f` itself,
/// unchanged and unflagged — and every existing occupant keeps its
/// place, its chain and its flag exactly as they were.
pub proof fn lemma_distinct_stays(t: FileTree, f: File)
    requires
        t.wf(),
        t.spec_needed(f) is None,
        !has_match(t, f),
    ensures
        t.spec_insert(f).occs().len() == t.occs().len() + 1,
        exists|i: int|
            0 <= i <= t.occs().len() && t.spec_insert(f).occs() == t.occs().insert(i, f),
{
    lemma_insert_occs(t, f);
    let i: int = choose|i: int|
        0 <= i <= t.occs().len() && t.spec_insert(f).occs() == t.occs().insert(i, f);
    t.occs().insert_ensures(i, f);
}

/// A descriptor with a resolved digest, whose size no occupant shares
/// without a resolved digest of its own, can be inserted right away: no
/// content is requested.
pub proof fn lemma_resolved_needs_nothing(t: FileTree, f: File)
    requires
        t.wf(),
        f.hash is Some,
        forall|i: int|
            0 <= i < t.occs().len() && (#[trigger] t.occs()[i]).size == f.size ==> t.occs()[i].hash
                is Some,
    ensures
        t.spec_needed(f) is None,
    decreases t,
{
    match t.file {
        None => {},
        Some(o) => {
            let lseq = match t.left {
                None => Seq::<File>::empty(),
                Some(l) => l.occs(),
            };
            let rseq = match t.right {
                None => Seq::<File>::empty(),
                Some(r) => r.occs(),
            };
            let nl: int = lseq.len() as int;
            assert(t.occs() == lseq + seq![*o] + rseq);
            assert(t.occs()[nl] == *o);
            assert forall|i: int|
                0 <= i < rseq.len() && (#[trigger] rseq[i]).size == f.size implies rseq[i].hash
                is Some by {
                assert(rseq[i] == t.occs()[nl + 1 + i]);
            }
            assert forall|i: int|
                0 <= i < lseq.len() && (#[trigger] lseq[i]).size == f.size implies lseq[i].hash
                is Some by {
                assert(lseq[i] == t.occs()[i]);
            }
            if f.size > o.size {
                match t.right {
                    None => {},
                    Some(r) => {
                        lemma_resolved_needs_nothing(*r, f);
                    },
                }
            } else if f.size < o.size {
                match t.left {
                    None => {},
                    Some(l) => {
                        lemma_resolved_needs_nothing(*l, f);
                    },
                }
            } else {
                assert(o.hash is Some);
                if lex_lt(o.hash->0@, f.hash->0@) {
                    match t.right {
                        None => {},
                        Some(r) => {
                            lemma_resolved_needs_nothing(*r, f);
                        },
                    }
                } else if lex_lt(f.hash->0@, o.hash->0@) {
                    match t.left {
                        None => {},
                        Some(l) => {
                            lemma_resolved_needs_nothing(*l, f);
                        },
                    }
                }
            }
        },
    }
}

/// When the engine asks for the arriving descriptor's own content, every
/// occupant sharing its size already has a resolved digest.
pub proof fn lemma_own_request_means_occupants_resolved(t: FileTree, f: File)
    requires
        t.wf(),
        t.spec_needed(f) matches Some(p) && !p.0,
    ensures
        forall|i: int|
            0 <= i < t.occs().len() && (#[trigger] t.occs()[i]).size == f.size ==> t.occs()[i].hash
                is Some,
    decreases t,
{
    match t.file {
        None => {},
        Some(o) => {
            let lseq = match t.left {
                None => Seq::<File>::empty(),
                Some(l) => l.occs(),
            };
            let rseq = match t.right {
                None => Seq::<File>::empty(),
                Some(r) => r.occs(),
            };
            let nl: int = lseq.len() as int;
            assert(t.occs() == lseq + seq![*o] + rseq);
            if f.size > o.size {
                match t.right {
                    None => {},
                    Some(r) => {
                        lemma_own_request_means_occupants_resolved(*r, f);
                        assert forall|i: int|
                            0 <= i < t.occs().len() && (#[trigger] t.occs()[i]).size
                                == f.size implies t.occs()[i].hash is Some by {
                            if i < nl {
                                assert(t.occs()[i] == lseq[i]);
                                assert(below(lseq[i], *o));
                            } else if i > nl {
                                assert(t.occs()[i] == rseq[i - nl - 1]);
                            }
                        }
                    },
                }
            } else if f.size < o.size {
                match t.left {
                    None => {},
                    Some(l) => {
                        lemma_own_request_means_occupants_resolved(*l, f);
                        assert forall|i: int|
                            0 <= i < t.occs().len() && (#[trigger] t.occs()[i]).size
                                == f.size implies t.occs()[i].hash is Some by {
                            if i > nl {
                                assert(t.occs()[i] == rseq[i - nl - 1]);
                                assert(above(rseq[i - nl - 1], *o));
                            } else if i < nl {
                                assert(t.occs()[i] == lseq[i]);
                            }
                        }
                    },
                }
            } else if o.hash is None {
            } else if f.hash is None {
                assert forall|i: int|
                    0 <= i < t.occs().len() && (#[trigger] t.occs()[i]).size == f.size implies
                    t.occs()[i].hash is Some by {
                    if i < nl {
                        assert(t.occs()[i] == lseq[i]);
                        assert(below(lseq[i], *o));
                    } else if i > nl {
                        assert(t.occs()[i] == rseq[i - nl - 1]);
                        assert(above(rseq[i - nl - 1], *o));
                    }
                }
            } else if lex_lt(o.hash->0@, f.hash->0@) {
                match t.right {
                    None => {},
                    Some(r) => {
                        lemma_own_request_means_occupants_resolved(*r, f);
                        assert forall|i: int|
                            0 <= i < t.occs().len() && (#[trigger] t.occs()[i]).size
                                == f.size implies t.occs()[i].hash is Some by {
                            if i < nl {
                                assert(t.occs()[i] == lseq[i]);
                                assert(below(lseq[i], *o));
                            } else if i > nl {
                                assert(t.occs()[i] == rseq[i - nl - 1]);
                            }
                        }
                    },
                }
            } else if lex_lt(f.hash->0@, o.hash->0@) {
                match t.left {
                    None => {},
                    Some(l) => {
                        lemma_own_request_means_occupants_resolved(*l, f);
                        assert forall|i: int|
                            0 <= i < t.occs().len() && (#[trigger] t.occs()[i]).size
                                == f.size implies t.occs()[i].hash is Some by {
                            if i > nl {
                                assert(t.occs()[i] == rseq[i - nl - 1]);
                                assert(above(rseq[i - nl - 1], *o));
                            } else if i < nl {
                                assert(t.occs()[i] == lseq[i]);
                            }
                        }
                    },
                }
            }
        },
    }
}

/// Once a descriptor's own digest is resolved, the insertion that asked
/// for it completes at the next attempt: nothing more is requested.
pub proof fn lemma_progress_after_own(t: FileTree, f: File, g: File)
    requires
        t.wf(),
        t.spec_needed(f) matches Some(p) && !p.0,
        g.size == f.size,
        g.hash is Some,
    ensures
        t.spec_needed(g) is None,
{
    lemma_own_request_means_occupants_resolved(t, f);
    lemma_resolved_needs_nothing(t, g);
}

/// Once the occupant that a tie ran into gets its digest — whatever the
/// digest is — the insertion asks at most for the arriving descriptor's
/// own content, and for nothing at all if that digest is already there.
pub proof fn lemma_progress_after_fill(t: FileTree, f: File, d: Vec<u8>)
    requires
        t.wf(),
        t.spec_needed(f) matches Some(p) && p.0,
    ensures
        t.spec_fill(f.size, d).spec_needed(f) == (if f.hash is None {
            Some((false, f.path@))
        } else {
            Option::<(bool, Seq<char>)>::None
        }),
    decreases t,
{
    let t2 = t.spec_fill(f.size, d);
    match t.file {
        None => {},
        Some(o) => {
            let lseq = match t.left {
                None => Seq::<File>::empty(),
                Some(l) => l.occs(),
            };
            let rseq = match t.right {
                None => Seq::<File>::empty(),
                Some(r) => r.occs(),
            };
            if f.size > o.size {
                match t.right {
                    None => {},
                    Some(r) => {
                        lemma_progress_after_fill(*r, f, d);
                        assert(t2 == (FileTree {
                            right: Some(Box::new(r.spec_fill(f.size, d))),
                            ..t
                        }));
                    },
                }
            } else if f.size < o.size {
                match t.left {
                    None => {},
                    Some(l) => {
                        lemma_progress_after_fill(*l, f, d);
                        assert(t2 == (FileTree {
                            left: Some(Box::new(l.spec_fill(f.size, d))),
                            ..t
                        }));
                    },
                }
            } else if o.hash is None {
                // the occupant the request named; it gets the digest
                let o2 = File { hash: Some(d), ..*o };
                assert(t2 == (FileTree { file: Some(Box::new(o2)), ..t }));
                if f.hash is Some {
                    // no occupant of this size can hide in the subtrees:
                    // sharing the size of an unresolved occupant is
                    // impossible below it
                    match t.right {
                        None => {},
                        Some(r) => {
                            assert forall|i: int|
                                0 <= i < r.occs().len() implies (#[trigger] r.occs()[i]).size
                                != f.size by {
                                assert(above(r.occs()[i], *o));
                            }
                            lemma_no_tie_no_hashing(*r, f);
                        },
                    }
                    match t.left {
                        None => {},
                        Some(l) => {
                            assert forall|i: int|
                                0 <= i < l.occs().len() implies (#[trigger] l.occs()[i]).size
                                != f.size by {
                                assert(below(l.occs()[i], *o));
                            }
                            lemma_no_tie_no_hashing(*l, f);
                        },
                    }
                }
            } else {
                // the request did not come from this node, so it came
                // from a digest-ordered subtree; but every occupant
                // there shares this node's size with a resolved digest,
                // so no occupant request can arise from it
                assert(f.hash is Some);
                if lex_lt(o.hash->0@, f.hash->0@) {
                    match t.right {
                        None => {},
                        Some(r) => {
                            assert forall|i: int|
                                0 <= i < r.occs().len() && (#[trigger] r.occs()[i]).size
                                    == f.size implies r.occs()[i].hash is Some by {
                                assert(above(r.occs()[i], *o));
                            }
                            lemma_resolved_needs_nothing(*r, f);
                        },
                    }
                } else if lex_lt(f.hash->0@, o.hash->0@) {
                    match t.left {
                        None => {},
                        Some(l) => {
                            assert forall|i: int|
                                0 <= i < l.occs().len() && (#[trigger] l.occs()[i]).size
                                    == f.size implies l.occs()[i].hash is Some by {
                                assert(below(l.occs()[i], *o));
                            }
                            lemma_resolved_needs_nothing(*l, f);
                        },
                    }
                }
            }
        },
    }
}

/// Filling a digest never alters one already resolved: each occupant is
/// either untouched, or — carrying the filled size and no digest yet —
/// goes from no digest to exactly the supplied one.
pub proof fn lemma_fill_effect(t: FileTree, size: u64, d: Vec<u8>)
    ensures
        t.spec_fill(size, d).occs().len() == t.occs().len(),
        forall|j: int|
            #![trigger t.spec_fill(size, d).occs()[j]]
            0 <= j < t.occs().len() ==> (t.spec_fill(size, d).occs()[j] == t.occs()[j] || (
            t.occs()[j].hash is None && t.occs()[j].size == size && t.spec_fill(size, d).occs()[j]
                == (File { hash: Some(d), ..t.occs()[j] }))),
    decreases t,
{
    let t2 = t.spec_fill(size, d);
    match t.file {
        None => {},
        Some(o) => {
            let lseq = match t.left {
                None => Seq::<File>::empty(),
                Some(l) => l.occs(),
            };
            let rseq = match t.right {
                None => Seq::<File>::empty(),
                Some(r) => r.occs(),
            };
            let nl: int = lseq.len() as int;
            assert(t.occs() == lseq + seq![*o] + rseq);
            if size > o.size {
                match t.right {
                    None => {},
                    Some(r) => {
                        lemma_fill_effect(*r, size, d);
                        assert(t2.occs() == lseq + seq![*o] + r.spec_fill(size, d).occs());
                    },
                }
            } else if size < o.size {
                match t.left {
                    None => {},
                    Some(l) => {
                        lemma_fill_effect(*l, size, d);
                        assert(t2.occs() == l.spec_fill(size, d).occs() + seq![*o] + rseq);
                    },
                }
            } else if o.hash is None {
                assert(t2.occs() == lseq + seq![(File { hash: Some(d), ..*o })] + rseq);
            } else {
            }
        },
    }
}

/// Filling the one awaited digest keeps the tree well formed.
pub proof fn lemma_fill_wf(t: FileTree, size: u64, d: Vec<u8>)
    requires
        t.wf(),
        d@.len() == 32,
    ensures
        t.spec_fill(size, d).wf(),
        t.spec_fill(size, d).file is Some <==> t.file is Some,
    decreases t,
{
    let t2 = t.spec_fill(size, d);
    match t.file {
        None => {},
        Some(o) => {
            let lseq = match t.left {
                None => Seq::<File>::empty(),
                Some(l) => l.occs(),
            };
            let rseq = match t.right {
                None => Seq::<File>::empty(),
                Some(r) => r.occs(),
            };
            if size > o.size {
                match t.right {
                    None => {},
                    Some(r) => {
                        lemma_fill_wf(*r, size, d);
                        lemma_fill_effect(*r, size, d);
                        let r2 = r.spec_fill(size, d);
                        assert forall|i: int|
                            0 <= i < r2.occs().len() implies above(#[trigger] r2.occs()[i], *o) by {
                            assert(above(r.occs()[i], *o));
                        }
                        assert(t2.wf());
                    },
                }
            } else if size < o.size {
                match t.left {
                    None => {},
                    Some(l) => {
                        lemma_fill_wf(*l, size, d);
                        lemma_fill_effect(*l, size, d);
                        let l2 = l.spec_fill(size, d);
                        assert forall|i: int|
                            0 <= i < l2.occs().len() implies below(#[trigger] l2.occs()[i], *o) by {
                            assert(below(l.occs()[i], *o));
                        }
                        assert(t2.wf());
                    },
                }
            } else if o.hash is None {
                let o2 = File { hash: Some(d), ..*o };
                assert(o.next is None);
                assert(o2.chain_wf());
                assert forall|i: int| 0 <= i < lseq.len() implies below(#[trigger] lseq[i], o2) by {
                    assert(below(lseq[i], *o));
                }
                assert forall|i: int| 0 <= i < rseq.len() implies above(#[trigger] rseq[i], o2) by {
                    assert(above(rseq[i], *o));
                }
                assert(t2.wf());
            } else {
            }
        },
    }
}

} // verus!
