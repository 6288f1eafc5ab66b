use vstd::prelude::*;

verus! {

/// Height of a block.
pub type BlockNumber = u64;

/// Hash of a block header.
pub type BlockHash = u64;

/// Public-key identity of an authority, held as a 64-bit key fingerprint.
pub type AuthorityId = u64;

/// Voting weight of an authority.
pub type AuthorityWeight = u64;

/// Signature bytes of an authority over a localized payload.
pub type AuthoritySignature = Vec<u8>;

/// Number of blocks a challenge session stays open for an answer.
pub const CHALLENGE_SESSION_LENGTH: u64 = 10;

/// Largest number of headers accepted as ancestry evidence.
pub const MAX_ANCESTRY: usize = 1024;

/// Failures of the accountability calls.
#[derive(PartialEq, Eq, Structural, Clone, Copy, Debug)]
pub enum Error {
    ChangeAlreadyPending,
    ForcedTooSoon,
    BadSignature,
    IdenticalVotes,
    InvalidAncestry,
    AncestryTooLarge,
    InvalidFinalityProof,
    ChallengeDoesNotRefute,
    NoSuchChallenge,
    /// The call needs a signed origin.
    BadOrigin,
}

/// An account that can sign calls.
pub type AccountId = u64;

/// Who dispatched a call.
#[derive(PartialEq, Eq, Structural, Clone, Copy, Debug)]
pub enum Origin {
    /// A call signed by an account.
    Signed(AccountId),
    /// A call of the chain itself.
    Root,
    /// A call that nobody signed.
    Unsigned,
}

/// A vote for a block: the first-stage (prevote) and second-stage
/// (precommit) votes share this shape.
#[derive(PartialEq, Eq, Structural, Clone, Copy, Debug)]
pub struct Vote {
    pub target_hash: BlockHash,
    pub target_number: BlockNumber,
}

/// A vote tagged with its stage.
#[derive(PartialEq, Eq, Structural, Clone, Copy, Debug)]
pub enum Message {
    Prevote(Vote),
    Precommit(Vote),
}

/// A block header, reduced to what ancestry needs.
#[derive(PartialEq, Eq, Structural, Clone, Copy, Debug)]
pub struct Header {
    pub hash: BlockHash,
    pub parent_hash: BlockHash,
    pub number: BlockNumber,
}

/// A precommit with the identity and signature of its voter.
#[derive(Clone, Debug, PartialEq, Eq)]
pub struct SignedPrecommit {
    pub precommit: Vote,
    pub signature: AuthoritySignature,
    pub id: AuthorityId,
}

/// A claimed finalization: a target block and the precommits for it.
#[derive(Clone, Debug, PartialEq, Eq)]
pub struct Commit {
    pub target_hash: BlockHash,
    pub target_number: BlockNumber,
    pub precommits: Vec<SignedPrecommit>,
}

/// A vote offered as part of a set disputing a commit.
#[derive(Clone, Debug, PartialEq, Eq)]
pub struct ChallengedVote {
    pub vote: Vote,
    pub authority: AuthorityId,
    pub signature: AuthoritySignature,
}

/// Votes of one round with the headers that link them to their targets.
#[derive(Clone, Debug, PartialEq, Eq)]
pub struct RejectingVoteSet {
    pub headers: Vec<Header>,
    pub votes: Vec<ChallengedVote>,
    pub round: u64,
}

/// A commit of one round with the headers that link it.
#[derive(Clone, Debug, PartialEq, Eq)]
pub struct FinalizedBlockProof {
    pub headers: Vec<Header>,
    pub commit: Commit,
    pub round: u64,
}

/// An assertion that `rejecting_set` disproves the finalization of
/// `finalized_block` that `finalized_block_proof` claims.
#[derive(Debug, PartialEq, Eq)]
pub struct Challenge {
    pub finalized_block: (BlockHash, BlockNumber),
    pub finalized_block_proof: FinalizedBlockProof,
    pub rejecting_set: RejectingVoteSet,
}

/// A change of the authority set to be applied `delay` blocks after it is signaled.
#[derive(Clone, Debug, PartialEq, Eq)]
pub struct ScheduledChange {
    pub next_authorities: Vec<(AuthorityId, AuthorityWeight)>,
    pub delay: BlockNumber,
}

} // verus!
