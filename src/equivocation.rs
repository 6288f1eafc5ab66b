use vstd::prelude::*;
use crate::authority::Module;
use crate::challenge::only_slashed_changed;
use crate::codec::{le64, write_u64};
use crate::digest::wire_vote;
use crate::primitives::{AuthorityId, AuthoritySignature, Error, Message, Vote};

verus! {

/// The runtime's configuration that this module relies on: how an
/// authority's signature over a payload is checked.
pub trait Trait {
    /// The signature is valid for `payload` under the key of `signer`.
    fn verify(&self, signature: &AuthoritySignature, payload: &Vec<u8>, signer: AuthorityId) -> bool;
}

/// A sink that hands an encoded report call to the pending-transaction
/// pool, for inclusion in a future block.
pub trait SubmitReport<C, Block> {
    /// Submits the report call `extrinsic`, read against `client`.
    fn submit_report_call(&self, client: &C, extrinsic: &[u8]);
}

/// Two votes of one authority in one round.
pub struct Equivocation {
    pub identity: AuthorityId,
    pub round_number: u64,
    pub first: (Vote, AuthoritySignature),
    pub second: (Vote, AuthoritySignature),
}

/// An equivocation with the authority set it happened in.
pub struct GrandpaEquivocationProof {
    pub set_id: u64,
    pub equivocation: Equivocation,
}

/// Bytes of a vote with its stage.
pub open spec fn wire_message(m: Message) -> Seq<u8> {
    match m {
        Message::Prevote(v) => seq![0u8] + wire_vote(v),
        Message::Precommit(v) => seq![1u8] + wire_vote(v),
    }
}

/// The state change of an equivocation report, from `m0` to `m1`: on
/// success `identity` is slashed, once; on failure nothing changes.
pub open spec fn equivocation_effect(m0: Module, m1: Module, identity: AuthorityId, ok: bool) -> bool {
    &&& !ok ==> m1 == m0
    &&& ok ==> m1.slashed@ == (if m0.slashed@.contains(identity) {
        m0.slashed@
    } else {
        m0.slashed@.push(identity)
    }) && only_slashed_changed(m0, m1)
}

/// The payload an authority signs for a vote: the vote, the round and the
/// authority set, so that a signature holds in that round and set only.
pub open spec fn payload_of(round: u64, set_id: u64, m: Message) -> Seq<u8> {
    wire_message(m) + le64(round) + le64(set_id)
}

/// The message of a vote of the given stage.
pub open spec fn message_of(precommit: bool, v: Vote) -> Message {
    if precommit {
        Message::Precommit(v)
    } else {
        Message::Prevote(v)
    }
}

/// What an equivocation proof establishes, given whether each signature
/// verified: the culprit, or why the proof fails.
pub open spec fn equivocation_verdict(
    identity: AuthorityId,
    first: Vote,
    second: Vote,
    first_valid: bool,
    second_valid: bool,
) -> Result<AuthorityId, Error> {
    if first == second {
        Err(Error::IdenticalVotes)
    } else if !first_valid || !second_valid {
        Err(Error::BadSignature)
    } else {
        Ok(identity)
    }
}

/// The payload signed for `message` in `round` of authority set `set_id`.
pub fn localized_payload(round: u64, set_id: u64, message: &Message) -> (r: Vec<u8>)
    ensures
        r@ == payload_of(round, set_id, *message),
{
    let mut out: Vec<u8> = Vec::new();
    let v = match message {
        Message::Prevote(v) => {
            out.push(0u8);
            v
        },
        Message::Precommit(v) => {
            out.push(1u8);
            v
        },
    };
    write_u64(&mut out, v.target_hash);
    write_u64(&mut out, v.target_number);
    write_u64(&mut out, round);
    write_u64(&mut out, set_id);
    assert(out@ =~= payload_of(round, set_id, *message));
    out
}

/// Judges an equivocation proof from whether each of its signatures
/// verified against its payload.
pub fn judge_equivocation(equivocation: &Equivocation, first_valid: bool, second_valid: bool) -> (r: Result<AuthorityId, Error>)
    ensures
        r == equivocation_verdict(equivocation.identity, equivocation.first.0, equivocation.second.0, first_valid, second_valid),
{
    if equivocation.first.0 == equivocation.second.0 {
        Err(Error::IdenticalVotes)
    } else if !first_valid || !second_valid {
        Err(Error::BadSignature)
    } else {
        Ok(equivocation.identity)
    }
}

impl Module {
    /// Reports `id` to slashing, once.
    pub fn slash(&mut self, id: AuthorityId)
        ensures
            old(self).slashed@.no_duplicates() ==> final(self).slashed@.no_duplicates(),
            final(self).slashed@ == if old(self).slashed@.contains(id) {
                old(self).slashed@
            } else {
                old(self).slashed@.push(id)
            },
            final(self).authorities == old(self).authorities,
            final(self).pending_change == old(self).pending_change,
            final(self).next_forced == old(self).next_forced,
            final(self).stalled == old(self).stalled,
            final(self).challenge_sessions == old(self).challenge_sessions,
            final(self).logs == old(self).logs,
            final(self).events == old(self).events,
    {
        let mut i: usize = 0;
        while i < self.slashed.len()
            invariant
                i <= self.slashed@.len(),
                forall|j: int| 0 <= j < i ==> self.slashed@[j] != id,
            decreases self.slashed@.len() - i,
        {
            if self.slashed[i] == id {
                return;
            }
            i = i + 1;
        }
        let ghost before = self.slashed@;
        self.slashed.push(id);
        assert(before.no_duplicates() ==> self.slashed@.no_duplicates()) by {
            if before.no_duplicates() {
                assert forall|p: int, q: int| 0 <= p < self.slashed@.len() && 0 <= q < self.slashed@.len() && p != q
                    implies self.slashed@[p] != self.slashed@[q] by {
                    if p < before.len() && q < before.len() {
                        assert(before[p] != before[q]);
                    }
                }
            }
        }
    }

    fn report_equivocation<T: Trait>(&mut self, config: &T, proof: &GrandpaEquivocationProof, precommit: bool) -> (r: Result<(), Error>)
        ensures
            (r == Err::<(), Error>(Error::IdenticalVotes)) == (proof.equivocation.first.0 == proof.equivocation.second.0),
            r is Err ==> r == Err::<(), Error>(Error::IdenticalVotes) || r == Err::<(), Error>(Error::BadSignature),
            equivocation_effect(*old(self), *final(self), proof.equivocation.identity, r is Ok),
    {
        let eq = &proof.equivocation;
        if eq.first.0 == eq.second.0 {
            return Err(Error::IdenticalVotes);
        }
        let first_payload = localized_payload(eq.round_number, proof.set_id, &if precommit {
            Message::Precommit(eq.first.0)
        } else {
            Message::Prevote(eq.first.0)
        });
        let first_valid = config.verify(&eq.first.1, &first_payload, eq.identity);
        let second_payload = localized_payload(eq.round_number, proof.set_id, &if precommit {
            Message::Precommit(eq.second.0)
        } else {
            Message::Prevote(eq.second.0)
        });
        let second_valid = config.verify(&eq.second.1, &second_payload, eq.identity);
        match judge_equivocation(eq, first_valid, second_valid) {
            Ok(culprit) => {
                self.slash(culprit);
                Ok(())
            },
            Err(e) => Err(e),
        }
    }

    /// Reports two different prevotes of one authority in one round; on a
    /// valid proof the authority is slashed.
    pub fn report_prevote_equivocation<T: Trait>(&mut self, config: &T, proof: &GrandpaEquivocationProof) -> (r: Result<(), Error>)
        ensures
            (r == Err::<(), Error>(Error::IdenticalVotes)) == (proof.equivocation.first.0 == proof.equivocation.second.0),
            r is Err ==> r == Err::<(), Error>(Error::IdenticalVotes) || r == Err::<(), Error>(Error::BadSignature),
            equivocation_effect(*old(self), *final(self), proof.equivocation.identity, r is Ok),
    {
        self.report_equivocation(config, proof, false)
    }

    /// Reports two different precommits of one authority in one round; on a
    /// valid proof the authority is slashed.
    pub fn report_precommit_equivocation<T: Trait>(&mut self, config: &T, proof: &GrandpaEquivocationProof) -> (r: Result<(), Error>)
        ensures
            (r == Err::<(), Error>(Error::IdenticalVotes)) == (proof.equivocation.first.0 == proof.equivocation.second.0),
            r is Err ==> r == Err::<(), Error>(Error::IdenticalVotes) || r == Err::<(), Error>(Error::BadSignature),
            equivocation_effect(*old(self), *final(self), proof.equivocation.identity, r is Ok),
    {
        self.report_equivocation(config, proof, true)
    }
}

/// A proof whose two votes are the same fails as identical, whatever the
/// identity and whether the signatures verify.
pub proof fn lemma_identical_votes(identity: AuthorityId, v: Vote, first_valid: bool, second_valid: bool)
    ensures
        equivocation_verdict(identity, v, v, first_valid, second_valid) == Err::<AuthorityId, Error>(Error::IdenticalVotes),
{
}

/// A proof of two different votes names its identity as the culprit when
/// both signatures verify, and fails for a bad signature when either does not.
pub proof fn lemma_distinct_votes(identity: AuthorityId, first: Vote, second: Vote, first_valid: bool, second_valid: bool)
    requires
        first != second,
    ensures
        equivocation_verdict(identity, first, second, first_valid, second_valid) == if first_valid && second_valid {
            Ok::<AuthorityId, Error>(identity)
        } else {
            Err(Error::BadSignature)
        },
{
}

} // verus!
