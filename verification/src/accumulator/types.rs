//! Values shared by the accumulator: hashes, leaves, swap instructions,
//! errors, and the hash that joins two children into their parent.
use sha2::Digest;
use vstd::prelude::*;

verus! {

/// A 32-byte hash value.
pub type NodeHash = [u8; 32];

/// A leaf handed to the accumulator: the hash it commits to, and whether
/// its payload is worth remembering for a later deletion.
#[derive(Clone, Copy, Debug)]
pub struct Leaf {
    pub hash: NodeHash,
    pub remember: bool,
}

/// An instruction to exchange the subtrees at two positions of one row.
#[derive(Clone, Copy, Debug, PartialEq, Eq, Structural)]
pub struct Arrow {
    pub from: u64,
    pub to: u64,
}

/// What a change of the forest asks of the cache of leaf payloads that
/// its caller keeps: the hashes of the leaves whose payload is to be put
/// there, and the hashes of the leaves whose payload is to be evicted.
#[derive(Debug)]
pub struct CacheUpdate {
    pub put: Vec<NodeHash>,
    pub evict: Vec<NodeHash>,
}

/// Why an operation on the accumulator was refused.
#[derive(Clone, Copy, Debug, PartialEq, Eq, Structural)]
pub enum AccumulatorError {
    /// A position lies outside the forest, or is named twice or out of order.
    InvalidPosition,
    /// A node that the operation has to read is absent.
    StructuralViolation,
    /// A rise or drop exceeds the rows of the forest.
    ArithmeticOutOfRange,
    /// A hash was requested over an all-zero operand.
    EmptyOperand,
}

/// The all-zero hash marks a node that holds no data.
pub open spec fn is_empty_hash(h: NodeHash) -> bool {
    forall|i: int| 0 <= i < 32 ==> h@[i] == 0u8
}

/// The hash of a node that holds no data.
pub open spec fn empty_hash_of() -> NodeHash {
    [
        0u8, 0u8, 0u8, 0u8, 0u8, 0u8, 0u8, 0u8, 0u8, 0u8, 0u8, 0u8, 0u8, 0u8, 0u8, 0u8,
        0u8, 0u8, 0u8, 0u8, 0u8, 0u8, 0u8, 0u8, 0u8, 0u8, 0u8, 0u8, 0u8, 0u8, 0u8, 0u8,
    ]
}

/// There is one empty hash.
pub proof fn lemma_empty_hash(h: NodeHash)
    requires
        is_empty_hash(h),
    ensures
        h == empty_hash_of(),
{
    let e = empty_hash_of();
    lemma_empty_hash_of();
    assert(h@ =~= e@);
}

/// The empty hash is empty.
pub proof fn lemma_empty_hash_of()
    ensures
        is_empty_hash(empty_hash_of()),
{
    let e = empty_hash_of();
    assert forall|i: int| 0 <= i < 32 implies e@[i] == 0u8 by {
        assert(e[i] == 0u8);
    }
}

/// The hash of a node that holds no data: 32 zero bytes.
pub fn empty_hash() -> (h: NodeHash)
    ensures
        is_empty_hash(h),
        h == empty_hash_of(),
{
    let h: NodeHash = [0u8; 32];
    proof {
        assert(is_empty_hash(h));
        lemma_empty_hash(h);
    }
    h
}

/// What `sha2::Sha256::digest` returns for a byte string: its SHA-256.
pub uninterp spec fn sha256(data: Seq<u8>) -> Seq<u8>;

/// The hash whose bytes are `sha256(left ++ right)`.
pub open spec fn parent_digest(left: NodeHash, right: NodeHash) -> NodeHash {
    choose|h: NodeHash| h@ == sha256(left@ + right@)
}

/// What `parent_hash` returns: the digest of the two children, unless one
/// of them is empty.
pub open spec fn parent_hash_of(left: NodeHash, right: NodeHash) -> Result<
    NodeHash,
    AccumulatorError,
> {
    if is_empty_hash(left) || is_empty_hash(right) {
        Err(AccumulatorError::EmptyOperand)
    } else {
        Ok(parent_digest(left, right))
    }
}

/// `sha2::Sha256::digest`: hashes the whole of `data` in one call. The
/// contract names the result `sha256(data)` and claims nothing else of it.
#[verifier::external_body]
fn sha256_digest(data: &Vec<u8>) -> (out: NodeHash)
    ensures
        out@ == sha256(data@),
{
    sha2::Sha256::digest(data).into()
}

/// Whether `h` is the all-zero hash.
pub fn is_empty(h: &NodeHash) -> (b: bool)
    ensures
        b == is_empty_hash(*h),
{
    let mut i: usize = 0;
    while i < 32
        invariant
            i <= 32,
            forall|j: int| 0 <= j < i ==> h@[j] == 0u8,
        decreases 32 - i,
    {
        if h[i] != 0 {
            return false;
        }
        i += 1;
    }
    true
}

/// The Merkle parent of two nodes: SHA-256 over the 64 bytes of `left`
/// followed by `right`. An empty operand is refused.
pub fn parent_hash(left: NodeHash, right: NodeHash) -> (r: Result<NodeHash, AccumulatorError>)
    ensures
        r == parent_hash_of(left, right),
        r is Ok ==> r->Ok_0@ == sha256(left@ + right@),
{
    if is_empty(&left) || is_empty(&right) {
        return Err(AccumulatorError::EmptyOperand);
    }
    let mut data: Vec<u8> = Vec::with_capacity(64);
    let mut i: usize = 0;
    while i < 32
        invariant
            i <= 32,
            data@ == left@.take(i as int),
        decreases 32 - i,
    {
        data.push(left[i]);
        proof {
            assert(left@.take(i + 1) =~= left@.take(i as int).push(left@[i as int]));
        }
        i += 1;
    }
    i = 0;
    while i < 32
        invariant
            i <= 32,
            data@ == left@ + right@.take(i as int),
        decreases 32 - i,
    {
        data.push(right[i]);
        proof {
            assert(left@ + right@.take(i + 1) =~= (left@ + right@.take(i as int)).push(
                right@[i as int],
            ));
        }
        i += 1;
    }
    proof {
        assert(right@.take(32) =~= right@);
    }
    let out = sha256_digest(&data);
    proof {
        let d = parent_digest(left, right);
        assert(d@ == sha256(left@ + right@));
        assert(out@ =~= d@);
        assert(out == d);
    }
    Ok(out)
}

} // verus!
