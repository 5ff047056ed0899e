use mempool::aggregator::Aggregator;
use mempool::committee::Committee;
use mempool::error::MempoolError;
use mempool::primitives::Digest;
use mempool::primitives::PublicKey;
use mempool::primitives::Signature;

fn pk(tag: u8) -> PublicKey {
    PublicKey::new(vec![tag; 32])
}

fn sig(tag: u8) -> Signature {
    Signature::new(vec![tag; 64])
}

fn root() -> Digest {
    Digest::new(vec![7u8; 32])
}

fn committee(stakes: &[u64], threshold: u64) -> Committee {
    let members: Vec<(PublicKey, u64)> = stakes
        .iter()
        .enumerate()
        .map(|(i, s)| (pk(i as u8 + 1), *s))
        .collect();
    Committee::new(members, threshold).expect("distinct keys")
}

#[test]
fn quorum_scenario() {
    // Committee of 4 authorities, per-authority stake 1, quorum threshold 3.
    let c = committee(&[1, 1, 1, 1], 3);
    let mut agg = Aggregator::new();

    let r1 = agg.append(root(), sig(1), pk(1), &c).unwrap();
    assert!(r1.is_none());
    assert_eq!(agg.weight, 1);

    let r2 = agg.append(root(), sig(2), pk(2), &c).unwrap();
    assert!(r2.is_none());
    assert_eq!(agg.weight, 2);

    let cert = agg.append(root(), sig(3), pk(3), &c).unwrap().expect("quorum reached");
    assert_eq!(cert.root, root());
    assert_eq!(cert.votes.len(), 3);
    assert_eq!(cert.votes[0].0, pk(1));
    assert_eq!(cert.votes[0].1, sig(1));
    assert_eq!(cert.votes[1].0, pk(2));
    assert_eq!(cert.votes[1].1, sig(2));
    assert_eq!(cert.votes[2].0, pk(3));
    assert_eq!(cert.votes[2].1, sig(3));

    // Weight and vote list reset; a later vote behaves as a fresh round.
    assert_eq!(agg.weight, 0);
    assert_eq!(agg.votes.len(), 0);
    let r4 = agg.append(root(), sig(4), pk(4), &c).unwrap();
    assert!(r4.is_none());
    assert_eq!(agg.weight, 1);
    assert_eq!(agg.votes.len(), 1);
}

#[test]
fn no_double_voting() {
    let c = committee(&[1, 1, 1, 1], 3);
    let mut agg = Aggregator::new();

    agg.append(root(), sig(1), pk(1), &c).unwrap();
    let weight_before = agg.weight;
    let votes_before = agg.votes.len();

    let r = agg.append(root(), sig(9), pk(1), &c);
    match r {
        Err(MempoolError::AuthorityReuse(a)) => assert_eq!(a, pk(1)),
        _ => panic!("expected AuthorityReuse"),
    }
    assert_eq!(agg.weight, weight_before);
    assert_eq!(agg.votes.len(), votes_before);
}

#[test]
fn stake_weighted_accumulation() {
    // Stakes are weighted per authority, not one unit per vote.
    let c = committee(&[2, 1, 1], 3);
    let mut agg = Aggregator::new();

    let r1 = agg.append(root(), sig(1), pk(1), &c).unwrap();
    assert!(r1.is_none());
    assert_eq!(agg.weight, 2);

    let cert = agg.append(root(), sig(2), pk(2), &c).unwrap().expect("2 + 1 reaches 3");
    assert_eq!(cert.votes.len(), 2);
    assert_eq!(agg.weight, 0);
}

#[test]
fn unknown_authority_has_no_stake() {
    let c = committee(&[1, 1, 1, 1], 2);
    let mut agg = Aggregator::new();

    // An unknown authority's vote is recorded but carries no stake.
    let r = agg.append(root(), sig(1), pk(99), &c).unwrap();
    assert!(r.is_none());
    assert_eq!(agg.weight, 0);
    assert_eq!(agg.votes.len(), 1);
}

#[test]
fn committee_rejects_duplicate_keys() {
    let members = vec![(pk(1), 1u64), (pk(2), 1u64), (pk(1), 1u64)];
    assert!(Committee::new(members, 2).is_none());

    let c = committee(&[1, 2], 2);
    assert_eq!(c.index(&pk(1)), Some(0));
    assert_eq!(c.index(&pk(2)), Some(1));
    assert_eq!(c.index(&pk(3)), None);
    assert_eq!(c.stake(&pk(2)), 2);
    assert_eq!(c.stake(&pk(3)), 0);
    assert_eq!(c.quorum_threshold(), 2);
    assert_eq!(c.size(), 2);
}
