//! Content digests and the order on them.
//!
//! A digest is the fixed-length output of SHA-256 over a file's full byte
//! content, compared byte-for-byte under lexicographic order.
use vstd::prelude::*;

verus! {

/// The SHA-256 digest of a byte sequence. The algorithm itself is not
/// restated here; the digest is a fixed function of the input bytes alone.
pub uninterp spec fn sha256_of(content: Seq<u8>) -> Seq<u8>;

/// Relies on sha2::Sha256::digest (the one-shot form of the Digest trait):
/// it returns the SHA-256 digest of the input, 32 bytes, depending on the
/// input bytes alone.
#[verifier::external_body]
pub(crate) fn sha256_bytes(content: &Vec<u8>) -> (digest: Vec<u8>)
    ensures
        digest@ == sha256_of(content@),
        digest@.len() == 32,
{
    <sha2::Sha256 as sha2::Digest>::digest(content.as_slice()).to_vec()
}

/// Strict lexicographic order on byte sequences: a proper prefix comes
/// first; otherwise the first differing byte decides.
pub open spec fn lex_lt(a: Seq<u8>, b: Seq<u8>) -> bool
    decreases a.len(),
{
    if b.len() == 0 {
        false
    } else if a.len() == 0 {
        true
    } else if a[0] != b[0] {
        a[0] < b[0]
    } else {
        lex_lt(a.skip(1), b.skip(1))
    }
}

/// Result of a three-way byte comparison.
pub enum Cmp {
    Less,
    Equal,
    Greater,
}

pub proof fn lemma_lex_irrefl(a: Seq<u8>, b: Seq<u8>)
    requires
        a == b,
    ensures
        !lex_lt(a, b),
    decreases a.len(),
{
    if a.len() > 0 {
        lemma_lex_irrefl(a.skip(1), b.skip(1));
    }
}

pub proof fn lemma_lex_connex(a: Seq<u8>, b: Seq<u8>)
    requires
        !lex_lt(a, b),
        !lex_lt(b, a),
    ensures
        a == b,
    decreases a.len(),
{
    if a.len() == 0 || b.len() == 0 {
        assert(a =~= b);
    } else {
        lemma_lex_connex(a.skip(1), b.skip(1));
        assert(a =~= seq![a[0]] + a.skip(1));
        assert(b =~= seq![b[0]] + b.skip(1));
    }
}

pub proof fn lemma_lex_trans(a: Seq<u8>, b: Seq<u8>, c: Seq<u8>)
    requires
        lex_lt(a, b),
        lex_lt(b, c),
    ensures
        lex_lt(a, c),
    decreases a.len(),
{
    if a.len() > 0 && b.len() > 0 && c.len() > 0 {
        if a[0] == b[0] && b[0] == c[0] {
            lemma_lex_trans(a.skip(1), b.skip(1), c.skip(1));
        }
    }
}

proof fn lemma_lex_asym(a: Seq<u8>, b: Seq<u8>)
    requires
        lex_lt(a, b),
    ensures
        !lex_lt(b, a),
    decreases a.len(),
{
    if a.len() > 0 && b.len() > 0 && a[0] == b[0] {
        lemma_lex_asym(a.skip(1), b.skip(1));
    }
}

proof fn lemma_lex_from_prefix(a: Seq<u8>, b: Seq<u8>, i: int)
    requires
        0 <= i <= a.len(),
        i <= b.len(),
        forall|k: int| 0 <= k < i ==> a[k] == b[k],
        (i == a.len() && i < b.len()) || (i < a.len() && i < b.len() && a[i] < b[i]),
    ensures
        lex_lt(a, b),
    decreases i,
{
    if i > 0 {
        assert(a[0] == b[0]);
        assert(forall|k: int| 0 <= k < i - 1 ==> a.skip(1)[k] == a[k + 1] && b.skip(1)[k] == b[k
            + 1]);
        if i < a.len() {
            assert(a.skip(1)[i - 1] == a[i] && b.skip(1)[i - 1] == b[i]);
        }
        lemma_lex_from_prefix(a.skip(1), b.skip(1), i - 1);
    }
}

/// Three-way lexicographic comparison of two byte vectors.
pub fn cmp_bytes(a: &Vec<u8>, b: &Vec<u8>) -> (c: Cmp)
    ensures
        c is Less <==> lex_lt(a@, b@),
        c is Greater <==> lex_lt(b@, a@),
        c is Equal <==> a@ == b@,
{
    let mut i: usize = 0;
    loop
        invariant
            0 <= i <= a.len(),
            i <= b.len(),
            forall|k: int| 0 <= k < i ==> a@[k] == b@[k],
        decreases a.len() - i,
    {
        if i == a.len() && i == b.len() {
            proof {
                assert(a@ =~= b@);
                lemma_lex_irrefl(a@, b@);
                lemma_lex_irrefl(b@, a@);
            }
            return Cmp::Equal;
        }
        if i == a.len() {
            proof {
                lemma_lex_from_prefix(a@, b@, i as int);
                lemma_lex_asym(a@, b@);
            }
            return Cmp::Less;
        }
        if i == b.len() {
            proof {
                lemma_lex_from_prefix(b@, a@, i as int);
                lemma_lex_asym(b@, a@);
            }
            return Cmp::Greater;
        }
        if a[i] < b[i] {
            proof {
                lemma_lex_from_prefix(a@, b@, i as int);
                lemma_lex_asym(a@, b@);
            }
            return Cmp::Less;
        }
        if a[i] > b[i] {
            proof {
                lemma_lex_from_prefix(b@, a@, i as int);
                lemma_lex_asym(b@, a@);
            }
            return Cmp::Greater;
        }
        i = i + 1;
    }
}

} // verus!
