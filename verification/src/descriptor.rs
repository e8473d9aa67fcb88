//! File descriptors: one in-memory record per discovered file, with a
//! lazily computed content digest and an optional duplicate chain.
use vstd::prelude::*;
use crate::digest::sha256_of;
use crate::digest::sha256_bytes;

verus! {

/// A file could not be read while its digest was being computed. The
/// engine never reads files itself; the collaborator that does reports
/// the failure with this record, and the engine propagates it.
#[derive(Debug)]
pub struct IoFailure {
    /// Canonical path of the file that could not be read.
    pub path: String,
    /// Human-readable description of the underlying cause.
    pub detail: String,
}

/// One discovered file: display name, canonical path, size at discovery
/// time, optional content digest, and the duplicate chain this descriptor
/// heads, if any.
pub struct File {
    pub name: String,
    pub path: String,
    pub hash: Option<Vec<u8>>,
    pub size: u64,
    pub next: Option<Box<File>>,
    pub has_dupes: bool,
}

/// The digest views of an optional digest, for byte-for-byte comparison.
pub open spec fn hview(h: Option<Vec<u8>>) -> Option<Seq<u8>> {
    match h {
        None => None,
        Some(d) => Some(d@),
    }
}

impl File {
    /// The descriptors chained behind this one, nearest first; this
    /// descriptor itself is not part of its own chain.
    pub open spec fn chain(self) -> Seq<File>
        decreases self,
    {
        match self.next {
            None => Seq::<File>::empty(),
            Some(n) => seq![*n] + n.chain(),
        }
    }

    /// Duplicate chains are well formed: `has_dupes` holds exactly when
    /// the chain is non-empty, and every chained descriptor has the same
    /// size and the same resolved digest as its predecessor.
    pub open spec fn chain_wf(self) -> bool
        decreases self,
    {
        &&& (self.has_dupes <==> self.next is Some)
        &&& match self.next {
            None => true,
            Some(n) => {
                &&& self.hash is Some
                &&& n.size == self.size
                &&& hview(n.hash) == hview(self.hash)
                &&& n.chain_wf()
            },
        }
    }

    /// A digest, once present, is a full SHA-256 output: 32 bytes.
    pub open spec fn digest_wf(self) -> bool {
        self.hash matches Some(d) ==> d@.len() == 32
    }

    pub open spec fn wf(self) -> bool {
        self.chain_wf() && self.digest_wf()
    }

    /// A descriptor as it stands right after discovery: not yet chained
    /// to any duplicate.
    pub open spec fn unchained(self) -> bool {
        self.next is None && !self.has_dupes
    }

    /// A new descriptor for a discovered file: no digest yet, no
    /// duplicates known.
    pub fn new(name: String, path: String, size: u64) -> (f: File)
        ensures
            f == (File {
                name,
                path,
                hash: None::<Vec<u8>>,
                size,
                next: None::<Box<File>>,
                has_dupes: false,
            }),
            f.wf(),
            f.unchained(),
    {
        File { name, path, hash: None, size, next: None, has_dupes: false }
    }

    /// Resolve this descriptor's digest from the outcome of reading its
    /// file. A digest already present is kept as it is — the content is
    /// hashed at most once per descriptor — and a failed read leaves the
    /// descriptor unchanged and propagates the failure.
    pub fn compute_hash(&mut self, fetched: Result<Vec<u8>, IoFailure>) -> (r: Result<
        (),
        IoFailure,
    >)
        ensures
            old(self).hash is Some ==> *final(self) == *old(self) && r is Ok,
            old(self).hash is None ==> match fetched {
                Ok(content) => {
                    &&& r is Ok
                    &&& final(self).hash matches Some(d) && d@ == sha256_of(content@)
                    &&& *final(self) == (File { hash: final(self).hash, ..*old(self) })
                    &&& final(self).digest_wf()
                },
                Err(e) => *final(self) == *old(self) && r == Err::<(), IoFailure>(e),
            },
    {
        if self.hash.is_some() {
            return Ok(());
        }
        match fetched {
            Ok(content) => {
                let d = sha256_bytes(&content);
                self.hash = Some(d);
                Ok(())
            },
            Err(e) => Err(e),
        }
    }
}

} // verus!
