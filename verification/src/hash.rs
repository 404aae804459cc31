//! Keccak-256 hashing: the leaf hasher and the node combiner of the tree.
use vstd::prelude::*;
use tiny_keccak::Hasher;
use tiny_keccak::Keccak;

verus! {

/// What the keccak-256 digest of a byte sequence is. The digest is a pure
/// function of the input bytes; its value is not spelled out here.
pub uninterp spec fn keccak_of(data: Seq<u8>) -> Seq<u8>;

/// An internal node of the tree is the digest of its two children,
/// left bytes first.
pub open spec fn node_hash(l: Seq<u8>, r: Seq<u8>) -> Seq<u8> {
    keccak_of(l + r)
}

/// Relies on tiny_keccak::Keccak::v256 (with Hasher::update and
/// Hasher::finalize): the 32-byte keccak-256 digest of the input bytes,
/// a function of the input alone.
#[verifier::external_body]
pub fn keccak256(data: &[u8]) -> (r: [u8; 32])
    ensures
        r@ == keccak_of(data@),
{
    let mut hasher = Keccak::v256();
    hasher.update(data);
    let mut out = [0u8; 32];
    hasher.finalize(&mut out);
    out
}

/// Hashes the bytes of a note into its 32-byte leaf identifier.
pub fn hash_leaf(note: &Vec<u8>) -> (r: [u8; 32])
    ensures
        r@ == keccak_of(note@),
{
    keccak256(note.as_slice())
}

/// Combines two child hashes into their parent node hash.
pub fn hash_nodes(l: &[u8; 32], r: &[u8; 32]) -> (out: [u8; 32])
    ensures
        out@ == node_hash(l@, r@),
{
    let mut buf: Vec<u8> = Vec::new();
    let mut i: usize = 0;
    while i < 32
        invariant
            i <= 32,
            buf@ == l@.take(i as int),
        decreases 32 - i,
    {
        buf.push(l[i]);
        proof {
            assert(buf@ =~= l@.take(i + 1));
        }
        i += 1;
    }
    proof {
        assert(buf@ =~= l@);
    }
    let mut j: usize = 0;
    while j < 32
        invariant
            j <= 32,
            buf@ == l@ + r@.take(j as int),
        decreases 32 - j,
    {
        buf.push(r[j]);
        proof {
            assert(buf@ =~= l@ + r@.take(j + 1));
        }
        j += 1;
    }
    proof {
        assert(buf@ =~= l@ + r@);
    }
    keccak256(buf.as_slice())
}

/// Byte-for-byte equality of two 32-byte hashes.
pub fn hash_eq(a: &[u8; 32], b: &[u8; 32]) -> (r: bool)
    ensures
        r == (a@ == b@),
{
    let mut i: usize = 0;
    while i < 32
        invariant
            i <= 32,
            forall|j: int| 0 <= j < i ==> a@[j] == b@[j],
        decreases 32 - i,
    {
        if a[i] != b[i] {
            return false;
        }
        i += 1;
    }
    proof {
        assert(a@ =~= b@);
    }
    true
}

} // verus!
