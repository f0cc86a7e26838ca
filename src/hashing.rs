//! Domain-separated hashing of leaves, internal nodes and roots.

use commonware_cryptography::Hasher as _;
use commonware_cryptography::Sha256;
use vstd::prelude::*;

verus! {

/// Number of bytes of every digest.
pub const DIGEST_LEN: usize = 32;

/// First byte of every message hashed for a leaf.
pub const LEAF_TAG: u8 = 0;

/// First byte of every message hashed for an internal node.
pub const NODE_TAG: u8 = 1;

/// First byte of every message hashed for a root.
pub const ROOT_TAG: u8 = 2;

/// The SHA-256 digest of a byte string.
pub uninterp spec fn sha256_of(m: Seq<u8>) -> Seq<u8>;

/// Relies on `commonware_cryptography::Sha256` through `Hasher::hash`: a fresh hasher absorbs the
/// message and returns its SHA-256 digest, an array of 32 bytes.
#[verifier::external_body]
fn sha256(m: &[u8]) -> (r: Vec<u8>)
    ensures
        r@ == sha256_of(m@),
        r@.len() == DIGEST_LEN,
{
    Sha256::hash(m).0.to_vec()
}

/// The eight bytes of `x`, most significant first.
pub open spec fn be_bytes(x: u64) -> Seq<u8> {
    Seq::new(8, |i: int| ((x >> ((56 - 8 * i) as u64)) & 0xff) as u8)
}

/// The byte strings of `s`, one after another.
pub open spec fn concat(s: Seq<Seq<u8>>) -> Seq<u8>
    decreases s.len(),
{
    if s.len() == 0 {
        Seq::empty()
    } else {
        concat(s.drop_last()) + s.last()
    }
}

/// What is hashed for the leaf holding `element` at position `pos`.
pub open spec fn leaf_message(pos: u64, element: Seq<u8>) -> Seq<u8> {
    seq![LEAF_TAG] + be_bytes(pos) + element
}

/// What is hashed for the internal node at `pos` with children digests `left` and `right`.
pub open spec fn node_message(pos: u64, left: Seq<u8>, right: Seq<u8>) -> Seq<u8> {
    seq![NODE_TAG] + be_bytes(pos) + left + right
}

/// What is hashed for the root of a structure of `size` nodes with the given peak digests.
pub open spec fn root_message(size: u64, peaks: Seq<Seq<u8>>) -> Seq<u8> {
    seq![ROOT_TAG] + be_bytes(size) + concat(peaks)
}

pub open spec fn leaf_digest(pos: u64, element: Seq<u8>) -> Seq<u8> {
    sha256_of(leaf_message(pos, element))
}

pub open spec fn node_digest(pos: u64, left: Seq<u8>, right: Seq<u8>) -> Seq<u8> {
    sha256_of(node_message(pos, left, right))
}

pub open spec fn root_digest(size: u64, peaks: Seq<Seq<u8>>) -> Seq<u8> {
    sha256_of(root_message(size, peaks))
}

/// The messages of a leaf, of an internal node and of a root never coincide, whatever their
/// contents: each kind starts with its own tag.
pub proof fn lemma_domains_disjoint(
    leaf_pos: u64,
    e: Seq<u8>,
    node_pos: u64,
    l: Seq<u8>,
    r: Seq<u8>,
    size: u64,
    peaks: Seq<Seq<u8>>,
)
    ensures
        leaf_message(leaf_pos, e) != node_message(node_pos, l, r),
        leaf_message(leaf_pos, e) != root_message(size, peaks),
        node_message(node_pos, l, r) != root_message(size, peaks),
{
    assert(leaf_message(leaf_pos, e)[0] == LEAF_TAG);
    assert(node_message(node_pos, l, r)[0] == NODE_TAG);
    assert(root_message(size, peaks)[0] == ROOT_TAG);
}

fn push_u64(buf: &mut Vec<u8>, x: u64)
    ensures
        final(buf)@ == old(buf)@ + be_bytes(x),
{
    let ghost start = buf@;
    let mut i: u64 = 0;
    while i < 8
        invariant
            i <= 8,
            buf@.len() == start.len() + i,
            buf@ =~= start + be_bytes(x).take(i as int),
        decreases 8 - i,
    {
        let b = ((x >> (56 - 8 * i)) & 0xff) as u8;
        buf.push(b);
        i = i + 1;
        assert(be_bytes(x).take(i as int) =~= be_bytes(x).take(i - 1) + seq![b]);
    }
    assert(be_bytes(x).take(8) =~= be_bytes(x));
}

fn push_bytes(buf: &mut Vec<u8>, bytes: &Vec<u8>)
    ensures
        final(buf)@ == old(buf)@ + bytes@,
{
    let ghost start = buf@;
    let mut i: usize = 0;
    while i < bytes.len()
        invariant
            i <= bytes@.len(),
            buf@ =~= start + bytes@.take(i as int),
        decreases bytes@.len() - i,
    {
        buf.push(bytes[i]);
        i = i + 1;
        assert(bytes@.take(i as int) =~= bytes@.take(i - 1) + seq![bytes@[i - 1]]);
    }
    assert(bytes@.take(bytes@.len() as int) =~= bytes@);
}

/// Digest of the leaf holding `element` at position `pos`.
pub fn leaf_hash(pos: u64, element: &Vec<u8>) -> (r: Vec<u8>)
    ensures
        r@ == leaf_digest(pos, element@),
        r@.len() == DIGEST_LEN,
{
    let mut msg: Vec<u8> = Vec::new();
    msg.push(LEAF_TAG);
    push_u64(&mut msg, pos);
    push_bytes(&mut msg, element);
    assert(msg@ =~= leaf_message(pos, element@));
    sha256(msg.as_slice())
}

/// Digest of the internal node at `pos` whose children have digests `left` and `right`.
pub fn node_hash(pos: u64, left: &Vec<u8>, right: &Vec<u8>) -> (r: Vec<u8>)
    ensures
        r@ == node_digest(pos, left@, right@),
        r@.len() == DIGEST_LEN,
{
    let mut msg: Vec<u8> = Vec::new();
    msg.push(NODE_TAG);
    push_u64(&mut msg, pos);
    push_bytes(&mut msg, left);
    push_bytes(&mut msg, right);
    assert(msg@ =~= node_message(pos, left@, right@));
    sha256(msg.as_slice())
}

/// Digest of the root of a structure of `size` nodes whose peaks, left to right, have the given
/// digests.
pub fn root_hash(size: u64, peaks: &Vec<Vec<u8>>) -> (r: Vec<u8>)
    ensures
        r@ == root_digest(size, peaks@.map_values(|d: Vec<u8>| d@)),
        r@.len() == DIGEST_LEN,
{
    let ghost views = peaks@.map_values(|d: Vec<u8>| d@);
    let mut msg: Vec<u8> = Vec::new();
    msg.push(ROOT_TAG);
    push_u64(&mut msg, size);
    let mut i: usize = 0;
    while i < peaks.len()
        invariant
            i <= peaks@.len(),
            views == peaks@.map_values(|d: Vec<u8>| d@),
            msg@ =~= seq![ROOT_TAG] + be_bytes(size) + concat(views.take(i as int)),
        decreases peaks@.len() - i,
    {
        push_bytes(&mut msg, &peaks[i]);
        i = i + 1;
        assert(views.take(i as int).drop_last() =~= views.take(i - 1));
    }
    assert(views.take(peaks@.len() as int) =~= views);
    assert(msg@ =~= root_message(size, views));
    sha256(msg.as_slice())
}

/// Whether two byte strings are equal.
pub fn bytes_eq(a: &Vec<u8>, b: &Vec<u8>) -> (r: bool)
    ensures
        r == (a@ == b@),
{
    if a.len() != b.len() {
        return false;
    }
    let mut i: usize = 0;
    while i < a.len()
        invariant
            a@.len() == b@.len(),
            i <= a@.len(),
            a@.take(i as int) == b@.take(i as int),
        decreases a@.len() - i,
    {
        if a[i] != b[i] {
            assert(a@[i as int] != b@[i as int]);
            return false;
        }
        i = i + 1;
        assert(a@.take(i as int) =~= a@.take(i - 1).push(a@[i - 1]));
        assert(b@.take(i as int) =~= b@.take(i - 1).push(b@[i - 1]));
    }
    assert(a@ =~= a@.take(a@.len() as int));
    assert(b@ =~= b@.take(b@.len() as int));
    true
}

} // verus!
