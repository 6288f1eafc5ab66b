use grandpa_accountability::commit::{validate_commit, VoterSet};
use grandpa_accountability::equivocation::{
    judge_equivocation, localized_payload, Equivocation, GrandpaEquivocationProof, Trait,
};
use grandpa_accountability::authority::Module;
use grandpa_accountability::primitives::{
    Commit, Error, Header, Message, SignedPrecommit, Vote, MAX_ANCESTRY,
};

const A: u64 = 1;
const B: u64 = 2;
const C: u64 = 3;

/// A toy signature: the payload followed by the signer's key bytes.
struct Toy;

fn sign(payload: &[u8], signer: u64) -> Vec<u8> {
    let mut s = payload.to_vec();
    s.extend_from_slice(&signer.to_le_bytes());
    s
}

impl Trait for Toy {
    fn verify(&self, signature: &Vec<u8>, payload: &Vec<u8>, signer: u64) -> bool {
        *signature == sign(payload, signer)
    }
}

fn voters() -> VoterSet {
    VoterSet::new(vec![(A, 1), (B, 1), (C, 1)])
}

fn pc(hash: u64, number: u64, id: u64) -> SignedPrecommit {
    SignedPrecommit {
        precommit: Vote { target_hash: hash, target_number: number },
        signature: vec![],
        id,
    }
}

fn chain() -> Vec<Header> {
    vec![
        Header { hash: 101, parent_hash: 100, number: 11 },
        Header { hash: 102, parent_hash: 101, number: 12 },
        Header { hash: 202, parent_hash: 101, number: 12 },
    ]
}

#[test]
fn one_block_commit_with_supermajority_has_that_ghost() {
    let headers = vec![Header { hash: 100, parent_hash: 99, number: 10 }];
    let commit = Commit { target_hash: 100, target_number: 10, precommits: vec![pc(100, 10, A), pc(100, 10, B)] };
    let v = validate_commit(&commit, &voters(), &headers).unwrap();
    assert_eq!(v.ghost_block(), Some((100, 10)));
    let commit = Commit { target_hash: 100, target_number: 10, precommits: vec![pc(100, 10, A)] };
    let v = validate_commit(&commit, &voters(), &headers).unwrap();
    assert_eq!(v.ghost_block(), None);
}

#[test]
fn weighted_threshold_is_two_thirds() {
    let vs = VoterSet::new(vec![(A, 2), (B, 1), (C, 1)]);
    assert_eq!(vs.total_weight(), 4);
    assert_eq!(vs.weight(A), 2);
    assert_eq!(vs.weight(9), 0);
    let headers = vec![];
    let commit = Commit { target_hash: 100, target_number: 10, precommits: vec![pc(100, 10, A), pc(100, 10, B)] };
    assert_eq!(validate_commit(&commit, &vs, &headers).unwrap().ghost_block(), Some((100, 10)));
    let commit = Commit { target_hash: 100, target_number: 10, precommits: vec![pc(100, 10, B), pc(100, 10, C)] };
    assert_eq!(validate_commit(&commit, &vs, &headers).unwrap().ghost_block(), None);
}

#[test]
fn a_voter_counts_once_and_strangers_count_nothing() {
    let headers = vec![];
    let commit = Commit {
        target_hash: 100,
        target_number: 10,
        precommits: vec![pc(100, 10, A), pc(100, 10, A), pc(100, 10, 77)],
    };
    assert_eq!(validate_commit(&commit, &voters(), &headers).unwrap().ghost_block(), None);
}

#[test]
fn ghost_is_the_highest_block_with_supermajority() {
    let commit = Commit {
        target_hash: 100,
        target_number: 10,
        precommits: vec![pc(102, 12, A), pc(102, 12, B), pc(202, 12, C)],
    };
    assert_eq!(validate_commit(&commit, &voters(), &chain()).unwrap().ghost_block(), Some((102, 12)));
    let commit = Commit {
        target_hash: 100,
        target_number: 10,
        precommits: vec![pc(102, 12, A), pc(202, 12, B), pc(101, 11, C)],
    };
    assert_eq!(validate_commit(&commit, &voters(), &chain()).unwrap().ghost_block(), Some((101, 11)));
}

#[test]
fn unlinked_precommit_is_invalid_ancestry() {
    let commit = Commit { target_hash: 100, target_number: 10, precommits: vec![pc(555, 12, A)] };
    assert_eq!(validate_commit(&commit, &voters(), &chain()).err(), Some(Error::InvalidAncestry));
}

#[test]
fn too_many_headers_is_rejected() {
    let headers: Vec<Header> = (0..(MAX_ANCESTRY as u64 + 1))
        .map(|i| Header { hash: 1000 + i, parent_hash: 999 + i, number: i })
        .collect();
    let commit = Commit { target_hash: 100, target_number: 10, precommits: vec![] };
    assert_eq!(validate_commit(&commit, &voters(), &headers).err(), Some(Error::AncestryTooLarge));
    let headers: Vec<Header> = headers.into_iter().take(MAX_ANCESTRY).collect();
    assert!(validate_commit(&commit, &voters(), &headers).is_ok());
}

#[test]
fn payload_embeds_vote_round_and_set() {
    let p = localized_payload(7, 2, &Message::Precommit(Vote { target_hash: 5, target_number: 6 }));
    let mut expected = vec![1u8];
    expected.extend_from_slice(&5u64.to_le_bytes());
    expected.extend_from_slice(&6u64.to_le_bytes());
    expected.extend_from_slice(&7u64.to_le_bytes());
    expected.extend_from_slice(&2u64.to_le_bytes());
    assert_eq!(p, expected);
    let q = localized_payload(7, 2, &Message::Prevote(Vote { target_hash: 5, target_number: 6 }));
    assert_eq!(q[0], 0);
    assert_eq!(q[1..], p[1..]);
}

fn equivocation_proof(identity: u64, signer: u64, v1: Vote, v2: Vote, precommit: bool) -> GrandpaEquivocationProof {
    let msg = |v: Vote| if precommit { Message::Precommit(v) } else { Message::Prevote(v) };
    GrandpaEquivocationProof {
        set_id: 3,
        equivocation: Equivocation {
            identity,
            round_number: 9,
            first: (v1, sign(&localized_payload(9, 3, &msg(v1)), signer)),
            second: (v2, sign(&localized_payload(9, 3, &msg(v2)), signer)),
        },
    }
}

#[test]
fn identical_votes_are_no_equivocation() {
    let v = Vote { target_hash: 5, target_number: 6 };
    let mut m = Module::new(vec![(A, 1)]);
    assert_eq!(m.report_prevote_equivocation(&Toy, &equivocation_proof(A, A, v, v, false)), Err(Error::IdenticalVotes));
    assert_eq!(m.report_precommit_equivocation(&Toy, &equivocation_proof(A, B, v, v, true)), Err(Error::IdenticalVotes));
    assert!(m.slashed.is_empty());
    let e = equivocation_proof(A, A, v, v, false).equivocation;
    assert_eq!(judge_equivocation(&e, true, true), Err(Error::IdenticalVotes));
    assert_eq!(judge_equivocation(&e, false, false), Err(Error::IdenticalVotes));
}

#[test]
fn valid_equivocation_slashes_once() {
    let v1 = Vote { target_hash: 5, target_number: 6 };
    let v2 = Vote { target_hash: 8, target_number: 6 };
    let mut m = Module::new(vec![(A, 1)]);
    assert_eq!(m.report_prevote_equivocation(&Toy, &equivocation_proof(A, A, v1, v2, false)), Ok(()));
    assert_eq!(m.slashed, vec![A]);
    assert_eq!(m.report_precommit_equivocation(&Toy, &equivocation_proof(A, A, v1, v2, true)), Ok(()));
    assert_eq!(m.slashed, vec![A]);
    let e = equivocation_proof(A, A, v1, v2, false).equivocation;
    assert_eq!(judge_equivocation(&e, true, true), Ok(A));
    assert_eq!(judge_equivocation(&e, false, true), Err(Error::BadSignature));
    assert_eq!(judge_equivocation(&e, true, false), Err(Error::BadSignature));
}

#[test]
fn bad_signatures_fail() {
    let v1 = Vote { target_hash: 5, target_number: 6 };
    let v2 = Vote { target_hash: 8, target_number: 6 };
    let mut m = Module::new(vec![(A, 1)]);
    // signed by B, claimed for A
    assert_eq!(m.report_prevote_equivocation(&Toy, &equivocation_proof(A, B, v1, v2, false)), Err(Error::BadSignature));
    // first signature flipped
    let mut p = equivocation_proof(A, A, v1, v2, false);
    p.equivocation.first.1[0] ^= 1;
    assert_eq!(m.report_prevote_equivocation(&Toy, &p), Err(Error::BadSignature));
    // second signature flipped
    let mut p = equivocation_proof(A, A, v1, v2, true);
    p.equivocation.second.1[3] ^= 1;
    assert_eq!(m.report_precommit_equivocation(&Toy, &p), Err(Error::BadSignature));
    // a prevote signature does not hold as a precommit one
    let p = equivocation_proof(A, A, v1, v2, false);
    assert_eq!(m.report_precommit_equivocation(&Toy, &p), Err(Error::BadSignature));
    assert!(m.slashed.is_empty());
}

#[test]
fn every_precommit_of_a_voter_counts_whatever_the_order() {
    let headers = vec![Header { hash: 101, parent_hash: 100, number: 11 }];
    let commit = Commit {
        target_hash: 100,
        target_number: 10,
        precommits: vec![pc(100, 10, A), pc(101, 11, A), pc(101, 11, B), pc(100, 10, C)],
    };
    assert_eq!(validate_commit(&commit, &voters(), &headers).unwrap().ghost_block(), Some((101, 11)));
    let commit = Commit {
        target_hash: 100,
        target_number: 10,
        precommits: vec![pc(101, 11, A), pc(100, 10, A), pc(101, 11, B), pc(100, 10, C)],
    };
    assert_eq!(validate_commit(&commit, &voters(), &headers).unwrap().ghost_block(), Some((101, 11)));
}

#[test]
fn equal_height_tie_goes_to_the_lower_hash_in_any_order() {
    let one = VoterSet::new(vec![(A, 1)]);
    let headers = vec![
        Header { hash: 301, parent_hash: 100, number: 11 },
        Header { hash: 201, parent_hash: 100, number: 11 },
    ];
    let forward = Commit { target_hash: 100, target_number: 10, precommits: vec![pc(301, 11, A), pc(201, 11, A)] };
    let backward = Commit { target_hash: 100, target_number: 10, precommits: vec![pc(201, 11, A), pc(301, 11, A)] };
    assert_eq!(validate_commit(&forward, &one, &headers).unwrap().ghost_block(), Some((201, 11)));
    assert_eq!(validate_commit(&backward, &one, &headers).unwrap().ghost_block(), Some((201, 11)));
}

#[test]
fn no_weight_means_no_ghost() {
    let headers = vec![];
    let commit = Commit { target_hash: 100, target_number: 10, precommits: vec![pc(100, 10, 77)] };
    assert_eq!(validate_commit(&commit, &VoterSet::new(vec![]), &headers).unwrap().ghost_block(), None);
    assert_eq!(validate_commit(&commit, &VoterSet::new(vec![(A, 0)]), &headers).unwrap().ghost_block(), None);
}
