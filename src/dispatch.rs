use vstd::prelude::*;
use crate::authority::Module;
use crate::challenge::{
    answer_effect, answer_result, challenge_check, precommits_dispute_effect, prevotes_dispute_effect,
};
use crate::equivocation::{equivocation_effect, GrandpaEquivocationProof, Trait};
use crate::primitives::{BlockHash, BlockNumber, Challenge, Error, Origin};

verus! {

/// The calls that outside parties submit to this module.
pub enum Call {
    /// Any origin: two different prevotes of one authority in one round.
    ReportPrevoteEquivocation(GrandpaEquivocationProof),
    /// Any origin: two different precommits of one authority in one round.
    ReportPrecommitEquivocation(GrandpaEquivocationProof),
    /// Signed: a dispute over a finalization backed by prevotes.
    ReportRejectingPrevotes(Challenge),
    /// Signed: a dispute over a finalization backed by precommits.
    ReportRejectingPrecommits(Challenge),
    /// Signed: an answer to an open dispute.
    ReportPrevotesAnswer(Challenge),
}

/// The call may only be dispatched by a signed origin.
pub open spec fn needs_signed(call: Call) -> bool {
    !(call is ReportPrevoteEquivocation || call is ReportPrecommitEquivocation)
}

impl Module {
    /// Runs a call from `origin` at `current_height`, whose parent block is
    /// `parent_hash`, through its handler, with that handler's result (a
    /// disputed set's equivocators and an answer's verdict are left out) and
    /// its effect on the state.
    pub fn dispatch<T: Trait>(
        &mut self,
        config: &T,
        origin: Origin,
        call: Call,
        parent_hash: BlockHash,
        current_height: BlockNumber,
    ) -> (r: Result<(), Error>)
        ensures
            (needs_signed(call) && !(origin is Signed)) ==> r == Err::<(), Error>(Error::BadOrigin)
                && *final(self) == *old(self),
            call matches Call::ReportPrevoteEquivocation(p) ==> ((r == Err::<(), Error>(Error::IdenticalVotes))
                == (p.equivocation.first.0 == p.equivocation.second.0))
                && (r is Err ==> r == Err::<(), Error>(Error::IdenticalVotes) || r == Err::<(), Error>(
                Error::BadSignature,
            ))
                && equivocation_effect(*old(self), *final(self), p.equivocation.identity, r is Ok),
            call matches Call::ReportPrecommitEquivocation(p) ==> ((r == Err::<(), Error>(Error::IdenticalVotes))
                == (p.equivocation.first.0 == p.equivocation.second.0))
                && (r is Err ==> r == Err::<(), Error>(Error::IdenticalVotes) || r == Err::<(), Error>(
                Error::BadSignature,
            ))
                && equivocation_effect(*old(self), *final(self), p.equivocation.identity, r is Ok),
            call matches Call::ReportRejectingPrevotes(c) ==> (origin is Signed ==> r == challenge_check(
                c,
                old(self).authorities@,
            ) && prevotes_dispute_effect(*old(self), *final(self), c, parent_hash, current_height)),
            call matches Call::ReportRejectingPrecommits(c) ==> (origin is Signed ==> r == challenge_check(
                c,
                old(self).authorities@,
            ) && precommits_dispute_effect(*old(self), *final(self), c, parent_hash, current_height)),
            call matches Call::ReportPrevotesAnswer(c) ==> (origin is Signed ==> (r is Ok == answer_result(
                *old(self),
                c,
            ) is Ok) && (r is Err ==> r->Err_0 == answer_result(*old(self), c)->Err_0) && answer_effect(
                *old(self),
                *final(self),
                c,
            )),
    {
        match call {
            Call::ReportPrevoteEquivocation(p) => self.report_prevote_equivocation(config, &p),
            Call::ReportPrecommitEquivocation(p) => self.report_precommit_equivocation(config, &p),
            Call::ReportRejectingPrevotes(c) => self.report_rejecting_prevotes(origin, c, parent_hash, current_height),
            Call::ReportRejectingPrecommits(c) => match self.report_rejecting_precommits(
                origin,
                c,
                parent_hash,
                current_height,
            ) {
                Ok(_) => Ok(()),
                Err(e) => Err(e),
            },
            Call::ReportPrevotesAnswer(c) => match self.report_prevotes_answer(origin, &c) {
                Ok(_) => Ok(()),
                Err(e) => Err(e),
            },
        }
    }
}

} // verus!
