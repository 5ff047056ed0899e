use mempool::codec::decode;
use mempool::codec::recovery_threshold;
use mempool::codec::unframe;
use mempool::committee::Committee;
use mempool::error::MempoolError;
use mempool::messages::Payload;
use mempool::primitives::PublicKey;
use mempool::primitives::Signature;

fn pk(tag: u8) -> PublicKey {
    PublicKey::new(vec![tag; 32])
}

fn sig(tag: u8) -> Signature {
    Signature::new(vec![tag; 64])
}

fn committee4() -> Committee {
    let members: Vec<(PublicKey, u64)> = (1..=4u8).map(|i| (pk(i), 1u64)).collect();
    Committee::new(members, 3).expect("distinct keys")
}

fn batch() -> Vec<Vec<u8>> {
    vec![vec![1, 2, 3], vec![], vec![4, 5, 6, 7, 8]]
}

#[test]
fn end_to_end_coding() {
    // A 3-transaction batch encoded for a 4-member committee.
    let c = committee4();
    let payload = Payload::new(batch(), pk(1), sig(1));
    let root = payload.commit_root(&c);
    let (coded, root2) = payload.encode_and_commit(pk(1), &c, sig(2));
    assert_eq!(root, root2);
    assert_eq!(coded.len(), 4);
    assert_eq!(recovery_threshold(4), 2);

    // Verifying each chunk against its validator succeeds with the same root.
    for (i, cp) in coded.iter().enumerate() {
        let reported = cp.verify(&pk(i as u8 + 1), &c).expect("proof should validate");
        assert_eq!(reported, root);
        assert_eq!(cp.root(), root);
        assert_eq!(cp.author, pk(1));
        assert_eq!(cp.signature, sig(2));
    }

    // Any 2 of the 4 chunks reconstruct the original 3 transactions.
    let subset = vec![coded[1].chunk.clone(), coded[3].chunk.clone()];
    let data = decode(&subset).expect("non-empty subset decodes");
    let txs = unframe(&data).expect("frame parses");
    assert_eq!(txs, batch());
}

#[test]
fn tampered_chunk_is_rejected() {
    let c = committee4();
    let payload = Payload::new(batch(), pk(1), sig(1));
    let (mut coded, _root) = payload.encode_and_commit(pk(1), &c, sig(2));

    // Mutating a single byte of the chunk breaks the leaf binding.
    coded[0].chunk[0] ^= 1;
    match coded[0].verify(&pk(1), &c) {
        Err(MempoolError::BadInclusionProof) => {}
        _ => panic!("expected BadInclusionProof"),
    }
}

#[test]
fn swapped_index_is_rejected() {
    let c = committee4();
    let payload = Payload::new(batch(), pk(1), sig(1));
    let (coded, _root) = payload.encode_and_commit(pk(1), &c, sig(2));

    // A chunk presented under another validator's index fails: the leaf hash
    // binds the chunk to its position.
    match coded[0].verify(&pk(2), &c) {
        Err(MempoolError::BadInclusionProof) => {}
        _ => panic!("expected BadInclusionProof"),
    }
}

#[test]
fn unknown_author_is_rejected() {
    // Author gating: a name absent from the committee always fails, however
    // correct the chunk and proof are.
    let c = committee4();
    let payload = Payload::new(batch(), pk(1), sig(1));
    let (coded, _root) = payload.encode_and_commit(pk(1), &c, sig(2));

    match coded[0].verify(&pk(99), &c) {
        Err(MempoolError::BadInclusionProof) => {}
        _ => panic!("expected BadInclusionProof"),
    }
}

#[test]
fn single_member_committee() {
    let c = Committee::new(vec![(pk(1), 1u64)], 1).expect("distinct keys");
    let payload = Payload::new(batch(), pk(1), sig(1));
    let (coded, root) = payload.encode_and_commit(pk(1), &c, sig(2));
    assert_eq!(coded.len(), 1);
    assert_eq!(coded[0].verify(&pk(1), &c).expect("valid"), root);
}

#[test]
fn frame_round_trip() {
    let txs = batch();
    let framed = mempool::codec::frame(&txs);
    assert_eq!(unframe(&framed).expect("parses"), txs);

    let empty: Vec<Vec<u8>> = Vec::new();
    let framed_empty = mempool::codec::frame(&empty);
    assert_eq!(framed_empty.len(), 0);
    assert_eq!(unframe(&framed_empty).expect("parses"), empty);

    // A frame cut short is rejected.
    let mut cut = framed.clone();
    cut.pop();
    assert!(unframe(&cut).is_none());
    assert!(unframe(&vec![1, 2, 3]).is_none());
}

#[test]
fn decode_needs_a_chunk() {
    let none: Vec<Vec<u8>> = Vec::new();
    assert!(decode(&none).is_none());
}
