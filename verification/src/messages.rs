//! Payloads and coded payloads: the serializable units exchanged with peers.
//!
//! A `Payload` is a transaction batch with its author and a signature over
//! its digest. Encode-and-commit spreads the framed batch over one chunk per
//! committee member, binds each chunk to its index with a leaf hash, commits
//! to the leaves with an ordered Merkle tree, and packages each chunk with
//! its inclusion proof as a `CodedPayload`. A receiving validator verifies
//! that the chunk it received is bound to the committed root.

use vstd::prelude::*;
use vstd::bytes::spec_u64_to_le_bytes;
use vstd::bytes::u64_to_le_bytes;
use crate::codec::encode;
use crate::codec::frame;
use crate::codec::frame_of;
use crate::committee::Committee;
use crate::error::MempoolError;
use crate::error::MempoolResult;
use crate::merkle::MerkleProof;
use crate::merkle::MerkleTree;
use crate::merkle::digests_view;
use crate::merkle::root_of_items;
use crate::primitives::Digest;
use crate::primitives::PublicKey;
use crate::primitives::Signature;
use crate::primitives::append_bytes;
use crate::primitives::bytes_eq;
use crate::primitives::clone_bytes;
use crate::primitives::sha512_trunc;
use crate::primitives::sha512_trunc_of;

verus! {

/// One transaction: an opaque byte sequence.
pub type Transaction = Vec<u8>;

/// The transactions' bytes laid end to end, in order.
pub open spec fn concat_of(txs: Seq<Seq<u8>>) -> Seq<u8>
    decreases txs.len(),
{
    if txs.len() == 0 {
        Seq::empty()
    } else {
        concat_of(txs.drop_last()) + txs.last()
    }
}

/// The payload digest: SHA-512 (truncated) over the author's key bytes
/// followed by every transaction's bytes, in order.
pub open spec fn digest_of(author: Seq<u8>, txs: Seq<Seq<u8>>) -> Seq<u8> {
    sha512_trunc_of(author + concat_of(txs))
}

/// The total byte length of a batch.
pub open spec fn sum_lens(txs: Seq<Seq<u8>>) -> int
    decreases txs.len(),
{
    if txs.len() == 0 {
        0
    } else {
        sum_lens(txs.drop_last()) + txs.last().len()
    }
}

/// Every prefix of a batch is at most as long as the whole batch.
proof fn lemma_sum_lens_prefix(txs: Seq<Seq<u8>>, i: int)
    requires
        0 <= i <= txs.len(),
    ensures
        sum_lens(txs.take(i)) <= sum_lens(txs),
    decreases txs.len() - i,
{
    if i == txs.len() {
        assert(txs.take(i) =~= txs);
    } else {
        lemma_sum_lens_prefix(txs, i + 1);
        assert(txs.take(i + 1).drop_last() =~= txs.take(i));
        assert(txs.take(i + 1).last() == txs[i]);
    }
}

/// The leaf hash binding chunk bytes to committee index `index`: SHA-512
/// (truncated) over the index as 8 little-endian bytes followed by the chunk.
pub open spec fn leaf_of(index: int, chunk: Seq<u8>) -> Seq<u8> {
    sha512_trunc_of(spec_u64_to_le_bytes(index as u64) + chunk)
}

/// The index-bound leaf hashes of a batch framed and spread over `n` chunks.
pub open spec fn leaves_of(txs: Seq<Seq<u8>>, n: int) -> Seq<Seq<u8>> {
    Seq::new(n as nat, |i: int| leaf_of(i, frame_of(txs)))
}

/// The Merkle root committing to a batch spread over `n` chunks.
pub open spec fn commit_root_of(txs: Seq<Seq<u8>>, n: int) -> Seq<u8> {
    root_of_items(leaves_of(txs, n))
}

/// A transaction batch with its author and the author's signature over the
/// payload digest.
#[derive(Debug)]
pub struct Payload {
    pub transactions: Vec<Transaction>,
    pub author: PublicKey,
    pub signature: Signature,
}

/// One chunk of an encoded batch, bound to the committed root by an inclusion
/// proof, together with the author and the author's signature over the root.
#[derive(Debug)]
pub struct CodedPayload {
    pub chunk: Vec<u8>,
    pub proof: MerkleProof,
    pub author: PublicKey,
    pub signature: Signature,
}

/// What encode-and-commit promises of the coded payload at index `i`: it
/// carries the framed batch, its proof claims the index-bound leaf and climbs
/// to the committed root, and it carries the author and root signature.
pub open spec fn coded_for(
    cp: CodedPayload,
    txs: Seq<Seq<u8>>,
    i: int,
    root: Seq<u8>,
    author: Seq<u8>,
    sig: Seq<u8>,
) -> bool {
    &&& cp.chunk@ == frame_of(txs)
    &&& cp.proof.leaf@ == leaf_of(i, frame_of(txs))
    &&& cp.proof.wf()
    &&& cp.proof.climbs_to_root()
    &&& cp.proof.root@ == root
    &&& cp.author@ == author
    &&& cp.signature@ == sig
}

impl CodedPayload {
    /// The conditions under which verification by the validator named `name`
    /// succeeds: `name` has a committee index, the chunk hashes to the
    /// proof's claimed leaf under that index, and the proof recombines to its
    /// claimed root.
    pub open spec fn verify_ok(self, name: Seq<u8>, c: Committee) -> bool {
        match c.index_spec(name) {
            Some(i) => self.proof.leaf@ == leaf_of(i, self.chunk@) && self.proof.wf()
                && self.proof.climbs_to_root(),
            None => false,
        }
    }

    /// Confirms that this chunk is bound to the root the proof commits to,
    /// from the point of view of the validator named `name`: looks up the
    /// name's committee index, recomputes the index-bound leaf hash, and
    /// validates the inclusion proof. Returns the committed root on success
    /// and `BadInclusionProof` otherwise. Checking that the root matches the
    /// quorum's root and that the root signature verifies is the caller's
    /// separate concern.
    pub fn verify(&self, name: &PublicKey, committee: &Committee) -> (r: MempoolResult<Digest>)
        ensures
            match r {
                Ok(d) => self.verify_ok(name@, *committee) && d@ == self.proof.root@,
                Err(MempoolError::BadInclusionProof) => !self.verify_ok(name@, *committee),
                Err(_) => false,
            },
    {
        let index = match committee.index(name) {
            Some(i) => i,
            None => {
                return Err(MempoolError::BadInclusionProof);
            },
        };
        let lb = u64_to_le_bytes(index as u64);
        let mut buf: Vec<u8> = Vec::new();
        append_bytes(&mut buf, lb.as_slice());
        append_bytes(&mut buf, self.chunk.as_slice());
        proof {
            assert(buf@ =~= spec_u64_to_le_bytes(index as u64) + self.chunk@);
        }
        let leaf = Digest::new(sha512_trunc(buf.as_slice()));
        if !bytes_eq(leaf.as_bytes(), self.proof.leaf.as_bytes()) {
            return Err(MempoolError::BadInclusionProof);
        }
        if !self.proof.validate() {
            return Err(MempoolError::BadInclusionProof);
        }
        Ok(self.proof.root())
    }

    /// The root this coded payload's proof commits to.
    pub fn root(&self) -> (r: Digest)
        ensures
            r@ == self.proof.root@,
    {
        self.proof.root()
    }
}

impl Payload {
    /// The transaction batch as byte sequences.
    pub open spec fn txs_view(self) -> Seq<Seq<u8>> {
        self.transactions.deep_view()
    }

    /// Assembles a signed payload. The signature is the signing oracle's
    /// response over the payload digest; the (asynchronous) round-trip to the
    /// oracle is the caller's, and nothing is constructed before it returns.
    pub fn new(transactions: Vec<Transaction>, author: PublicKey, signature: Signature) -> (r:
        Self)
        ensures
            r.transactions@ == transactions@,
            r.author@ == author@,
            r.signature@ == signature@,
    {
        Payload { transactions, author, signature }
    }

    /// The sum of the transactions' byte lengths.
    pub fn size(&self) -> (r: usize)
        requires
            sum_lens(self.txs_view()) <= usize::MAX,
        ensures
            r as int == sum_lens(self.txs_view()),
    {
        let mut total: usize = 0;
        let mut i: usize = 0;
        while i < self.transactions.len()
            invariant
                i <= self.transactions@.len(),
                sum_lens(self.txs_view()) <= usize::MAX,
                total as int == sum_lens(self.txs_view().take(i as int)),
            decreases self.transactions@.len() - i,
        {
            proof {
                lemma_sum_lens_prefix(self.txs_view(), i + 1);
                assert(self.txs_view().take(i + 1 as int).drop_last() =~= self.txs_view().take(
                    i as int,
                ));
                assert(self.txs_view().take(i + 1 as int).last() == self.txs_view()[i as int]);
                assert(self.txs_view()[i as int] =~= self.transactions@[i as int]@);
            }
            total = total + self.transactions[i].len();
            i = i + 1;
        }
        proof {
            assert(self.txs_view().take(self.txs_view().len() as int) =~= self.txs_view());
        }
        total
    }

    /// The payload digest: a pure function of the author and the ordered
    /// transaction sequence.
    pub fn digest(&self) -> (r: Digest)
        ensures
            r@ == digest_of(self.author@, self.txs_view()),
            r.wf(),
    {
        let mut buf: Vec<u8> = Vec::new();
        append_bytes(&mut buf, self.author.as_bytes().as_slice());
        let mut i: usize = 0;
        while i < self.transactions.len()
            invariant
                i <= self.transactions@.len(),
                buf@ == self.author@ + concat_of(self.txs_view().take(i as int)),
            decreases self.transactions@.len() - i,
        {
            proof {
                assert(self.txs_view().take(i + 1 as int).drop_last() =~= self.txs_view().take(
                    i as int,
                ));
                assert(self.txs_view().take(i + 1 as int).last() == self.txs_view()[i as int]);
                assert(self.txs_view()[i as int] =~= self.transactions@[i as int]@);
                assert(self.author@ + concat_of(self.txs_view().take(i + 1 as int)) =~= (
                self.author@ + concat_of(self.txs_view().take(i as int)))
                    + self.transactions@[i as int]@);
            }
            append_bytes(&mut buf, self.transactions[i].as_slice());
            i = i + 1;
        }
        proof {
            assert(self.txs_view().take(self.txs_view().len() as int) =~= self.txs_view());
        }
        Digest::new(sha512_trunc(buf.as_slice()))
    }

    /// The Merkle root that encode-and-commit will return for this payload
    /// and this committee, so the caller can obtain the root signature first.
    pub fn commit_root(&self, committee: &Committee) -> (r: Digest)
        requires
            committee.size_spec() >= 1,
        ensures
            r@ == commit_root_of(self.txs_view(), committee.size_spec()),
    {
        let n = committee.size();
        let data = frame(&self.transactions);
        let leaves = index_bound_leaves(&data, n);
        proof {
            assert(digests_view(leaves@) =~= leaves_of(self.txs_view(), n as int));
        }
        let tree = MerkleTree::new(leaves);
        proof {
            tree.lemma_root();
        }
        tree.root()
    }

    /// Encodes the batch into one chunk per committee member, commits to the
    /// index-bound chunk hashes with an ordered Merkle tree, and packages
    /// each chunk with its inclusion proof, the author, and the author's
    /// signature over the committed root. Returns the coded payloads in index
    /// order together with the root.
    pub fn encode_and_commit(
        &self,
        author: PublicKey,
        committee: &Committee,
        root_signature: Signature,
    ) -> (r: (Vec<CodedPayload>, Digest))
        requires
            committee.size_spec() >= 1,
        ensures
            r.1@ == commit_root_of(self.txs_view(), committee.size_spec()),
            r.0@.len() == committee.size_spec(),
            forall|i: int|
                0 <= i < r.0@.len() ==> coded_for(
                    #[trigger] r.0@[i],
                    self.txs_view(),
                    i,
                    r.1@,
                    author@,
                    root_signature@,
                ),
    {
        let n = committee.size();
        // Spread the framed batch over one chunk per member; any
        // recovery-threshold-sized subset of the chunks reconstructs it.
        let data = frame(&self.transactions);
        let chunks = encode(&data, n);
        // Bind each chunk to its index and commit to the bound leaves.
        let leaves = index_bound_leaves(&data, n);
        proof {
            assert(digests_view(leaves@) =~= leaves_of(self.txs_view(), n as int));
        }
        let tree = MerkleTree::new(leaves);
        proof {
            tree.lemma_root();
        }
        let root = tree.root();
        let mut out: Vec<CodedPayload> = Vec::new();
        let mut i: usize = 0;
        while i < n
            invariant
                i <= n,
                n as int == committee.size_spec(),
                out@.len() == i,
                tree.wf(),
                tree.items_view() == leaves_of(self.txs_view(), n as int),
                root@ == commit_root_of(self.txs_view(), n as int),
                root@ == tree.root_view(),
                chunks@.len() == n,
                forall|k: int| 0 <= k < n ==> chunks.deep_view()[k] == frame_of(self.txs_view()),
                forall|k: int|
                    0 <= k < i ==> coded_for(
                        #[trigger] out@[k],
                        self.txs_view(),
                        k,
                        root@,
                        author@,
                        root_signature@,
                    ),
            decreases n - i,
        {
            let inclusion = tree.gen_proof(i);
            let chunk = clone_bytes(&chunks[i]);
            proof {
                assert(chunks.deep_view()[i as int] =~= chunks@[i as int]@);
            }
            let cp = CodedPayload {
                chunk,
                proof: inclusion,
                author: author.clone(),
                signature: root_signature.clone(),
            };
            out.push(cp);
            i = i + 1;
        }
        (out, root)
    }
}

/// The index-bound leaf digests over `n` copies of the framed batch: leaf `i`
/// hashes the index as 8 little-endian bytes followed by the chunk bytes.
fn index_bound_leaves(data: &Vec<u8>, n: usize) -> (r: Vec<Digest>)
    requires
        n >= 1,
    ensures
        r@.len() == n,
        forall|k: int| 0 <= k < n ==> (#[trigger] r@[k])@ == leaf_of(k, data@),
{
    let mut leaves: Vec<Digest> = Vec::new();
    let mut i: usize = 0;
    while i < n
        invariant
            i <= n,
            leaves@.len() == i,
            forall|k: int| 0 <= k < i ==> (#[trigger] leaves@[k])@ == leaf_of(k, data@),
        decreases n - i,
    {
        let lb = u64_to_le_bytes(i as u64);
        let mut buf: Vec<u8> = Vec::new();
        append_bytes(&mut buf, lb.as_slice());
        append_bytes(&mut buf, data.as_slice());
        proof {
            assert(buf@ =~= spec_u64_to_le_bytes(i as u64) + data@);
        }
        leaves.push(Digest::new(sha512_trunc(buf.as_slice())));
        i = i + 1;
    }
    leaves
}

/// Proof soundness: a coded payload produced by encode-and-commit, presented
/// by the validator whose committee index it was built for, passes
/// verification and reports the committed root.
pub proof fn lemma_proof_soundness(
    cp: CodedPayload,
    txs: Seq<Seq<u8>>,
    i: int,
    root: Seq<u8>,
    author: Seq<u8>,
    sig: Seq<u8>,
    name: Seq<u8>,
    c: Committee,
)
    requires
        coded_for(cp, txs, i, root, author, sig),
        c.index_spec(name) == Some(i),
    ensures
        cp.verify_ok(name, c),
        cp.proof.root@ == root,
{
}

/// Author gating: verification fails whenever the presented name is absent
/// from the committee, whatever the chunk and proof hold.
pub proof fn lemma_author_gating(cp: CodedPayload, name: Seq<u8>, c: Committee)
    requires
        c.index_spec(name) is None,
    ensures
        !cp.verify_ok(name, c),
{
}

/// Digest determinism: payloads with the same author and the same ordered
/// transaction sequence have the same digest.
pub proof fn lemma_digest_deterministic(a: Payload, b: Payload)
    requires
        a.author@ == b.author@,
        a.txs_view() == b.txs_view(),
    ensures
        digest_of(a.author@, a.txs_view()) == digest_of(b.author@, b.txs_view()),
{
}

} // verus!
