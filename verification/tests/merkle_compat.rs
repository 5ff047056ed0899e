//! The tree layout is a protocol constant: these tests hold the crate's
//! Merkle commitment, bit for bit, against merkle_light driven by the same
//! SHA3-256 algorithm.

use crypto::digest::Digest as _;
use crypto::sha3::Sha3;
use crypto::sha3::Sha3Mode;
use mempool::merkle::MerkleTree;
use mempool::primitives::Digest;
use merkle_light::hash::Algorithm;
use merkle_light::merkle::MerkleTree as LightTree;
use std::hash::Hasher;
use std::iter::FromIterator as _;

#[derive(Clone, Copy, PartialEq, Eq, PartialOrd, Ord, Default, Debug)]
struct Item([u8; 32]);

impl AsRef<[u8]> for Item {
    fn as_ref(&self) -> &[u8] {
        &self.0
    }
}

struct Sha3Algorithm(Sha3);

impl Sha3Algorithm {
    fn new() -> Sha3Algorithm {
        Sha3Algorithm(Sha3::new(Sha3Mode::Sha3_256))
    }
}

impl Default for Sha3Algorithm {
    fn default() -> Sha3Algorithm {
        Sha3Algorithm::new()
    }
}

impl Hasher for Sha3Algorithm {
    fn write(&mut self, msg: &[u8]) {
        self.0.input(msg)
    }

    fn finish(&self) -> u64 {
        unreachable!()
    }
}

impl Algorithm<Item> for Sha3Algorithm {
    fn hash(&mut self) -> Item {
        let mut h = [0u8; 32];
        self.0.result(&mut h);
        Item(h)
    }

    fn reset(&mut self) {
        self.0.reset();
    }
}

fn items(n: u8) -> Vec<[u8; 32]> {
    (0..n).map(|i| [i.wrapping_mul(3).wrapping_add(1); 32]).collect()
}

fn roots_agree(n: u8) {
    let raw = items(n);
    let mine = MerkleTree::new(raw.iter().map(|b| Digest::new(b.to_vec())).collect());
    let theirs: LightTree<Item, Sha3Algorithm> =
        LightTree::from_iter(raw.iter().map(|b| Item(*b)));
    assert_eq!(mine.root().bytes, theirs.root().0.to_vec(), "width {}", n);
}

#[test]
fn root_matches_merkle_light() {
    // Even widths, odd widths (padded by repeating the last node), and a
    // width crossing several levels.
    for n in [2u8, 3, 4, 5, 7, 8, 9] {
        roots_agree(n);
    }
}

#[test]
fn proofs_match_merkle_light() {
    let raw = items(5);
    let mine = MerkleTree::new(raw.iter().map(|b| Digest::new(b.to_vec())).collect());
    let theirs: LightTree<Item, Sha3Algorithm> =
        LightTree::from_iter(raw.iter().map(|b| Item(*b)));

    for i in 0..raw.len() {
        let my_proof = mine.gen_proof(i);
        let their_proof = theirs.gen_proof(i);
        assert!(my_proof.validate());
        assert!(their_proof.validate::<Sha3Algorithm>());

        // Their lemma holds the stored (re-hashed) leaf, then the sibling
        // path, then the root; their path flag is true when the running node
        // is the left child.
        let lemma = their_proof.lemma();
        assert_eq!(lemma.len(), my_proof.siblings.len() + 2);
        for (k, sib) in my_proof.siblings.iter().enumerate() {
            assert_eq!(sib.bytes, lemma[k + 1].0.to_vec());
        }
        assert_eq!(my_proof.root.bytes, lemma[lemma.len() - 1].0.to_vec());
        let lefts: Vec<bool> = my_proof.lefts.clone();
        assert_eq!(&lefts[..], their_proof.path());
    }
}

#[test]
fn validate_rejects_a_wrong_root() {
    let raw = items(4);
    let mine = MerkleTree::new(raw.iter().map(|b| Digest::new(b.to_vec())).collect());
    let mut proof = mine.gen_proof(2);
    assert!(proof.validate());
    proof.root.bytes[0] ^= 1;
    assert!(!proof.validate());
}
