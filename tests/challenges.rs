use grandpa_accountability::authority::{Event, Module};
use grandpa_accountability::challenge::equivocators;
use grandpa_accountability::decode::decode_signal;
use grandpa_accountability::dispatch::Call;
use grandpa_accountability::equivocation::{Equivocation, GrandpaEquivocationProof, Trait};
use grandpa_accountability::digest::{encode_signal, DigestItem, Signal, GRANDPA_ENGINE_ID};
use grandpa_accountability::primitives::{
    Challenge, ChallengedVote, Commit, Error, FinalizedBlockProof, Header, Origin, RejectingVoteSet,
    ScheduledChange, SignedPrecommit, Vote, CHALLENGE_SESSION_LENGTH,
};

/// A configuration under which every signature verifies.
struct AcceptAll;

impl Trait for AcceptAll {
    fn verify(&self, _signature: &Vec<u8>, _payload: &Vec<u8>, _signer: u64) -> bool {
        true
    }
}

const A: u64 = 1;
const B: u64 = 2;
const C: u64 = 3;

fn module() -> Module {
    Module::new(vec![(A, 1), (B, 1), (C, 1)])
}

fn vote(hash: u64, number: u64) -> Vote {
    Vote { target_hash: hash, target_number: number }
}

fn cv(hash: u64, number: u64, authority: u64) -> ChallengedVote {
    ChallengedVote { vote: vote(hash, number), authority, signature: vec![authority as u8, 7] }
}

fn fork() -> Vec<Header> {
    vec![
        Header { hash: 103, parent_hash: 102, number: 13 },
        Header { hash: 203, parent_hash: 102, number: 13 },
    ]
}

fn challenge(signers: &[u64], votes: Vec<ChallengedVote>, proof_round: u64, round: u64) -> Challenge {
    Challenge {
        finalized_block: (102, 12),
        finalized_block_proof: FinalizedBlockProof {
            headers: vec![],
            commit: Commit {
                target_hash: 102,
                target_number: 12,
                precommits: signers
                    .iter()
                    .map(|id| SignedPrecommit { precommit: vote(102, 12), signature: vec![9], id: *id })
                    .collect(),
            },
            round: proof_round,
        },
        rejecting_set: RejectingVoteSet { headers: fork(), votes, round },
    }
}

#[test]
fn weak_finality_proof_is_rejected() {
    let mut m = module();
    let c = challenge(&[A], vec![cv(103, 13, A)], 4, 4);
    assert_eq!(m.report_rejecting_precommits(Origin::Signed(9), c, 77, 50), Err(Error::InvalidFinalityProof));
    let c = challenge(&[A], vec![cv(103, 13, A)], 4, 5);
    assert_eq!(m.report_rejecting_prevotes(Origin::Signed(9), c, 77, 50), Err(Error::InvalidFinalityProof));
    assert!(m.challenge_sessions.is_empty());
    assert!(m.logs.is_empty());
}

#[test]
fn supporting_set_does_not_refute() {
    let mut m = module();
    let votes = vec![cv(103, 13, A), cv(203, 13, B), cv(102, 12, C)];
    let c = challenge(&[A, B, C], votes, 4, 4);
    assert_eq!(m.report_rejecting_precommits(Origin::Signed(9), c, 77, 50), Err(Error::ChallengeDoesNotRefute));
}

#[test]
fn unlinked_rejecting_set_is_invalid_ancestry() {
    let mut m = module();
    let c = challenge(&[A, B, C], vec![cv(999, 13, A)], 4, 4);
    assert_eq!(m.report_rejecting_precommits(Origin::Signed(9), c, 77, 50), Err(Error::InvalidAncestry));
}

#[test]
fn same_round_equivocators_are_slashed() {
    let mut m = module();
    let votes = vec![cv(103, 13, A), cv(203, 13, A), cv(103, 13, B), cv(103, 13, B)];
    let c = challenge(&[A, B, C], votes, 4, 4);
    assert_eq!(m.report_rejecting_precommits(Origin::Signed(9), c, 77, 50), Ok(vec![A]));
    assert_eq!(m.slashed, vec![A]);
    assert!(m.challenge_sessions.is_empty());
}

#[test]
fn equivocators_are_ascending_and_unique() {
    let votes = vec![
        cv(1, 1, C),
        cv(2, 1, C),
        cv(1, 1, A),
        cv(1, 1, A),
        cv(3, 1, C),
        cv(5, 1, B),
        cv(6, 1, B),
    ];
    assert_eq!(equivocators(&votes), vec![B, C]);
    assert_eq!(equivocators(&vec![]), Vec::<u64>::new());
}

#[test]
fn earlier_round_changes_nothing() {
    let mut m = module();
    let c = challenge(&[A, B, C], vec![cv(103, 13, A)], 4, 3);
    assert_eq!(m.report_rejecting_precommits(Origin::Signed(9), c, 77, 50), Ok(vec![]));
    assert!(m.challenge_sessions.is_empty());
    assert!(m.slashed.is_empty());
}

#[test]
fn later_round_opens_a_session_that_an_answer_rebuts() {
    let mut m = module();
    let c = challenge(&[A, B, C], vec![cv(103, 13, A)], 4, 5);
    assert_eq!(m.report_rejecting_precommits(Origin::Signed(9), c, 77, 50), Ok(vec![]));
    assert_eq!(m.challenge_sessions.len(), 1);
    let s = &m.challenge_sessions[0];
    assert_eq!(s.scheduled_at, 50);
    assert_eq!(s.delay, CHALLENGE_SESSION_LENGTH);
    assert_eq!(s.parent_hash, 77);
    assert!(s.prevote_challenge.is_none());
    assert_eq!(s.precommit_challenge, Some(challenge(&[A, B, C], vec![cv(103, 13, A)], 4, 5)));
    assert_eq!(
        Module::grandpa_precommit_challenge(&m.logs),
        Some(challenge(&[A, B, C], vec![cv(103, 13, A)], 4, 5))
    );
    assert_eq!(m.events, vec![Event::NewChallenge(vec![A, B, C])]);

    let answer = challenge(&[], vec![cv(102, 12, A), cv(102, 12, B), cv(103, 13, C)], 5, 5);
    assert_eq!(m.report_prevotes_answer(Origin::Signed(9), &answer), Ok(true));
    assert!(m.challenge_sessions.is_empty());
    assert!(m.slashed.is_empty());
    assert_eq!(m.events[1], Event::ChallengeResponded(vec![A, B, C]));
}

#[test]
fn failed_answer_slashes_the_accused() {
    let mut m = module();
    let c = challenge(&[A, B, C], vec![cv(103, 13, A)], 4, 4);
    assert_eq!(m.report_rejecting_prevotes(Origin::Signed(9), c, 77, 50), Ok(()));
    assert!(m.challenge_sessions[0].prevote_challenge.is_some());
    assert!(Module::grandpa_prevote_challenge(&m.logs).is_some());
    let answer = challenge(&[], vec![cv(102, 12, A)], 5, 5);
    assert_eq!(m.report_prevotes_answer(Origin::Signed(9), &answer), Ok(false));
    assert!(m.challenge_sessions.is_empty());
    assert_eq!(m.slashed, vec![A, B, C]);
}

#[test]
fn answer_without_session_fails() {
    let mut m = module();
    let answer = challenge(&[], vec![cv(102, 12, A)], 5, 5);
    assert_eq!(m.report_prevotes_answer(Origin::Signed(9), &answer), Err(Error::NoSuchChallenge));
}

#[test]
fn unanswered_session_expires_against_the_accused() {
    let mut m = module();
    let c = challenge(&[B, C], vec![cv(103, 13, A)], 4, 5);
    assert_eq!(m.report_rejecting_precommits(Origin::Signed(9), c, 77, 50), Ok(vec![]));
    m.on_finalize(59);
    assert_eq!(m.challenge_sessions.len(), 1);
    assert!(m.slashed.is_empty());
    m.on_finalize(60);
    assert!(m.challenge_sessions.is_empty());
    assert_eq!(m.slashed, vec![B, C]);
}

fn change() -> ScheduledChange {
    ScheduledChange { next_authorities: vec![(A, 1), (C, 4)], delay: 6 }
}

fn entry(s: &Signal) -> DigestItem {
    DigestItem { engine: GRANDPA_ENGINE_ID, data: encode_signal(s) }
}

#[test]
fn every_signal_round_trips_through_a_digest() {
    let signals = vec![
        Signal::AuthoritiesChange(change()),
        Signal::ForcedAuthoritiesChange(3, change()),
        Signal::PrevoteChallenge(challenge(&[A, B], vec![cv(103, 13, A), cv(203, 13, C)], 1, 2)),
        Signal::PrecommitChallenge(challenge(&[C], vec![], 8, 8)),
    ];
    for s in signals {
        let digest = vec![entry(&s)];
        assert_eq!(decode_signal(&digest[0].data).as_ref(), Some(&s));
        assert_eq!(Module::grandpa_log(&digest), Some(s));
    }
}

#[test]
fn accessors_pick_their_own_kind() {
    let digest = vec![entry(&Signal::ForcedAuthoritiesChange(3, change()))];
    assert_eq!(Module::forced_change(&digest), Some((3, change())));
    assert_eq!(Module::pending_change(&digest), None);
    assert!(Module::grandpa_prevote_challenge(&digest).is_none());
    assert!(Module::grandpa_precommit_challenge(&digest).is_none());
    let s = Signal::AuthoritiesChange(change());
    assert_eq!(s.try_into_change(), Some(change()));
    assert_eq!(Signal::AuthoritiesChange(change()).try_into_forced_change(), None);
}

#[test]
fn other_engines_and_bad_entries_are_skipped() {
    let s = Signal::AuthoritiesChange(change());
    let foreign = DigestItem { engine: GRANDPA_ENGINE_ID + 1, data: encode_signal(&s) };
    assert_eq!(Module::grandpa_log(&vec![foreign]), None);
    let mut truncated = encode_signal(&s);
    truncated.pop();
    assert_eq!(decode_signal(&truncated), None);
    let mut longer = encode_signal(&s);
    longer.push(0);
    assert_eq!(decode_signal(&longer), None);
    assert_eq!(decode_signal(&vec![9, 0, 0]), None);
    let digest = vec![
        DigestItem { engine: GRANDPA_ENGINE_ID, data: truncated },
        DigestItem { engine: 5, data: vec![] },
        entry(&Signal::ForcedAuthoritiesChange(1, change())),
        entry(&s),
    ];
    assert_eq!(Module::grandpa_log(&digest), Some(Signal::ForcedAuthoritiesChange(1, change())));
}

#[test]
fn change_signal_has_the_expected_bytes() {
    let bytes = encode_signal(&Signal::AuthoritiesChange(ScheduledChange { next_authorities: vec![(A, 2)], delay: 5 }));
    let mut expected = vec![0u8];
    expected.extend_from_slice(&1u64.to_le_bytes());
    expected.extend_from_slice(&A.to_le_bytes());
    expected.extend_from_slice(&2u64.to_le_bytes());
    expected.extend_from_slice(&5u64.to_le_bytes());
    assert_eq!(bytes, expected);
}

#[test]
fn disputes_need_a_signed_origin() {
    let mut m = module();
    let c = challenge(&[A, B, C], vec![cv(103, 13, A)], 4, 5);
    assert_eq!(m.report_rejecting_precommits(Origin::Unsigned, c, 77, 50), Err(Error::BadOrigin));
    let c = challenge(&[A, B, C], vec![cv(103, 13, A)], 4, 5);
    assert_eq!(m.report_rejecting_prevotes(Origin::Root, c, 77, 50), Err(Error::BadOrigin));
    let c = challenge(&[A, B, C], vec![cv(103, 13, A)], 4, 5);
    assert_eq!(m.report_rejecting_prevotes(Origin::Signed(4), c, 77, 50), Ok(()));
    let answer = challenge(&[], vec![cv(102, 12, A)], 5, 5);
    assert_eq!(m.report_prevotes_answer(Origin::Unsigned, &answer), Err(Error::BadOrigin));
    assert_eq!(m.challenge_sessions.len(), 1);
    assert!(m.slashed.is_empty());
}

#[test]
fn dispatch_routes_calls_by_kind_and_origin() {
    let mut m = module();
    let c = challenge(&[A, B, C], vec![cv(103, 13, A)], 4, 5);
    assert_eq!(m.dispatch(&AcceptAll, Origin::Unsigned, Call::ReportRejectingPrecommits(c), 77, 50), Err(Error::BadOrigin));
    let c = challenge(&[A, B, C], vec![cv(103, 13, A)], 4, 5);
    assert_eq!(m.dispatch(&AcceptAll, Origin::Signed(1), Call::ReportRejectingPrecommits(c), 77, 50), Ok(()));
    assert_eq!(m.challenge_sessions.len(), 1);
    let answer = challenge(&[], vec![cv(102, 12, A), cv(102, 12, B)], 5, 5);
    assert_eq!(m.dispatch(&AcceptAll, Origin::Signed(1), Call::ReportPrevotesAnswer(answer), 77, 51), Ok(()));
    assert!(m.challenge_sessions.is_empty());
    let p = GrandpaEquivocationProof {
        set_id: 0,
        equivocation: Equivocation {
            identity: C,
            round_number: 1,
            first: (vote(1, 1), vec![]),
            second: (vote(2, 1), vec![]),
        },
    };
    assert_eq!(m.dispatch(&AcceptAll, Origin::Unsigned, Call::ReportPrecommitEquivocation(p), 77, 52), Ok(()));
    assert_eq!(m.slashed, vec![C]);
}

#[test]
fn oversized_finality_proof_is_too_large() {
    let mut m = module();
    let mut c = challenge(&[A, B, C], vec![cv(103, 13, A)], 4, 4);
    c.finalized_block_proof.headers = (0..1025u64)
        .map(|i| Header { hash: 5000 + i, parent_hash: 4999 + i, number: i })
        .collect();
    assert_eq!(m.report_rejecting_precommits(Origin::Signed(9), c, 77, 50), Err(Error::AncestryTooLarge));
    let mut c = challenge(&[A, B, C], vec![cv(103, 13, A)], 4, 4);
    c.rejecting_set.headers = (0..1025u64)
        .map(|i| Header { hash: 5000 + i, parent_hash: 4999 + i, number: i })
        .collect();
    assert_eq!(m.report_rejecting_prevotes(Origin::Signed(9), c, 77, 50), Err(Error::AncestryTooLarge));
    assert!(m.challenge_sessions.is_empty());
    assert!(m.slashed.is_empty());
}

#[test]
fn oversized_rejecting_set_is_too_large_before_the_proof_is_checked() {
    let mut m = module();
    let mut c = challenge(&[A], vec![cv(103, 13, A)], 4, 4);
    c.rejecting_set.headers = (0..1025u64)
        .map(|i| Header { hash: 5000 + i, parent_hash: 4999 + i, number: i })
        .collect();
    assert_eq!(m.report_rejecting_precommits(Origin::Signed(9), c, 77, 50), Err(Error::AncestryTooLarge));
}

#[test]
fn expiry_slashes_each_accused_once() {
    let mut m = module();
    let c = challenge(&[B, C], vec![cv(103, 13, A)], 4, 5);
    assert_eq!(m.report_rejecting_precommits(Origin::Signed(9), c, 77, 50), Ok(vec![]));
    let c = challenge(&[A, B, C], vec![cv(103, 13, A)], 4, 5);
    assert_eq!(m.report_rejecting_prevotes(Origin::Signed(9), c, 77, 52), Ok(()));
    m.slash(C);
    m.on_finalize(70);
    assert!(m.challenge_sessions.is_empty());
    assert_eq!(m.slashed, vec![C, B, A]);
}
