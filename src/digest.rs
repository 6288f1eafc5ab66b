use vstd::prelude::*;
use crate::codec::{le64, wire_authorities, write_authorities, write_u64};
use crate::primitives::{
    BlockNumber, Challenge, ChallengedVote, Commit, FinalizedBlockProof, Header, RejectingVoteSet,
    ScheduledChange, SignedPrecommit, Vote,
};

verus! {

/// Identifier of this engine's entries in a block digest (`afg1` read little-endian).
pub const GRANDPA_ENGINE_ID: u32 = 0x3167_6661;

/// What this module announces in a block digest.
#[derive(Debug, PartialEq, Eq)]
pub enum Signal {
    /// A change of the authority set, applied `delay` blocks after it is
    /// finalized.
    AuthoritiesChange(ScheduledChange),
    /// A forced change: the median last finalized block when it was signaled,
    /// and the change, applied `delay` blocks after it is imported.
    ForcedAuthoritiesChange(BlockNumber, ScheduledChange),
    /// A dispute over a finalization backed by prevotes.
    PrevoteChallenge(Challenge),
    /// A dispute over a finalization backed by precommits.
    PrecommitChallenge(Challenge),
}

/// One engine-tagged entry of a block digest.
#[derive(Debug, PartialEq, Eq)]
pub struct DigestItem {
    pub engine: u32,
    pub data: Vec<u8>,
}

/// Bytes of a byte string: its length, then the bytes.
pub open spec fn wire_bytes(s: Seq<u8>) -> Seq<u8> {
    le64(s.len() as u64) + s
}

pub open spec fn wire_vote(v: Vote) -> Seq<u8> {
    le64(v.target_hash) + le64(v.target_number)
}

pub open spec fn wire_header(h: Header) -> Seq<u8> {
    le64(h.hash) + le64(h.parent_hash) + le64(h.number)
}

pub open spec fn wire_header_items(s: Seq<Header>) -> Seq<u8>
    decreases s.len(),
{
    if s.len() == 0 {
        Seq::empty()
    } else {
        wire_header_items(s.drop_last()) + wire_header(s.last())
    }
}

pub open spec fn wire_headers(s: Seq<Header>) -> Seq<u8> {
    le64(s.len() as u64) + wire_header_items(s)
}

pub open spec fn wire_signed_precommit(p: SignedPrecommit) -> Seq<u8> {
    wire_vote(p.precommit) + wire_bytes(p.signature@) + le64(p.id)
}

pub open spec fn wire_precommit_items(s: Seq<SignedPrecommit>) -> Seq<u8>
    decreases s.len(),
{
    if s.len() == 0 {
        Seq::empty()
    } else {
        wire_precommit_items(s.drop_last()) + wire_signed_precommit(s.last())
    }
}

pub open spec fn wire_commit(c: Commit) -> Seq<u8> {
    le64(c.target_hash) + le64(c.target_number) + le64(c.precommits@.len() as u64)
        + wire_precommit_items(c.precommits@)
}

pub open spec fn wire_challenged_vote(v: ChallengedVote) -> Seq<u8> {
    wire_vote(v.vote) + le64(v.authority) + wire_bytes(v.signature@)
}

pub open spec fn wire_challenged_items(s: Seq<ChallengedVote>) -> Seq<u8>
    decreases s.len(),
{
    if s.len() == 0 {
        Seq::empty()
    } else {
        wire_challenged_items(s.drop_last()) + wire_challenged_vote(s.last())
    }
}

pub open spec fn wire_proof(p: FinalizedBlockProof) -> Seq<u8> {
    wire_headers(p.headers@) + wire_commit(p.commit) + le64(p.round)
}

pub open spec fn wire_rejecting(r: RejectingVoteSet) -> Seq<u8> {
    wire_headers(r.headers@) + le64(r.votes@.len() as u64) + wire_challenged_items(r.votes@)
        + le64(r.round)
}

pub open spec fn wire_challenge(c: Challenge) -> Seq<u8> {
    le64(c.finalized_block.0) + le64(c.finalized_block.1) + wire_proof(c.finalized_block_proof)
        + wire_rejecting(c.rejecting_set)
}

pub open spec fn wire_change(c: ScheduledChange) -> Seq<u8> {
    wire_authorities(c.next_authorities@) + le64(c.delay)
}

/// Bytes of a signal: a tag byte for its kind, then its contents.
pub open spec fn wire_signal(s: Signal) -> Seq<u8> {
    match s {
        Signal::AuthoritiesChange(c) => seq![0u8] + wire_change(c),
        Signal::ForcedAuthoritiesChange(median, c) => seq![1u8] + le64(median) + wire_change(c),
        Signal::PrevoteChallenge(c) => seq![2u8] + wire_challenge(c),
        Signal::PrecommitChallenge(c) => seq![3u8] + wire_challenge(c),
    }
}

fn write_bytes(out: &mut Vec<u8>, s: &Vec<u8>)
    ensures
        final(out)@ == old(out)@ + wire_bytes(s@),
{
    write_u64(out, s.len() as u64);
    let ghost start = out@;
    let mut i: usize = 0;
    while i < s.len()
        invariant
            i <= s@.len(),
            out@ == start + s@.take(i as int),
        decreases s@.len() - i,
    {
        out.push(s[i]);
        assert(start + s@.take(i + 1) =~= start + s@.take(i as int) + seq![s@[i as int]]);
        i = i + 1;
    }
    assert(s@.take(s@.len() as int) =~= s@);
}

fn write_vote(out: &mut Vec<u8>, v: &Vote)
    ensures
        final(out)@ == old(out)@ + wire_vote(*v),
{
    write_u64(out, v.target_hash);
    write_u64(out, v.target_number);
}

fn write_headers(out: &mut Vec<u8>, s: &Vec<Header>)
    ensures
        final(out)@ == old(out)@ + wire_headers(s@),
{
    write_u64(out, s.len() as u64);
    let ghost start = out@;
    let mut i: usize = 0;
    while i < s.len()
        invariant
            i <= s@.len(),
            out@ == start + wire_header_items(s@.take(i as int)),
        decreases s@.len() - i,
    {
        write_u64(out, s[i].hash);
        write_u64(out, s[i].parent_hash);
        write_u64(out, s[i].number);
        assert(s@.take(i + 1).drop_last() =~= s@.take(i as int));
        i = i + 1;
    }
    assert(s@.take(s@.len() as int) =~= s@);
}

fn write_commit(out: &mut Vec<u8>, c: &Commit)
    ensures
        final(out)@ == old(out)@ + wire_commit(*c),
{
    let s = &c.precommits;
    write_u64(out, c.target_hash);
    write_u64(out, c.target_number);
    write_u64(out, s.len() as u64);
    let ghost start = out@;
    let mut i: usize = 0;
    while i < s.len()
        invariant
            i <= s@.len(),
            out@ == start + wire_precommit_items(s@.take(i as int)),
        decreases s@.len() - i,
    {
        write_vote(out, &s[i].precommit);
        write_bytes(out, &s[i].signature);
        write_u64(out, s[i].id);
        assert(s@.take(i + 1).drop_last() =~= s@.take(i as int));
        i = i + 1;
    }
    assert(s@.take(s@.len() as int) =~= s@);
}

fn write_rejecting(out: &mut Vec<u8>, r: &RejectingVoteSet)
    ensures
        final(out)@ == old(out)@ + wire_rejecting(*r),
{
    let s = &r.votes;
    write_headers(out, &r.headers);
    write_u64(out, s.len() as u64);
    let ghost start = out@;
    let mut i: usize = 0;
    while i < s.len()
        invariant
            i <= s@.len(),
            out@ == start + wire_challenged_items(s@.take(i as int)),
        decreases s@.len() - i,
    {
        write_vote(out, &s[i].vote);
        write_u64(out, s[i].authority);
        write_bytes(out, &s[i].signature);
        assert(s@.take(i + 1).drop_last() =~= s@.take(i as int));
        i = i + 1;
    }
    assert(s@.take(s@.len() as int) =~= s@);
    write_u64(out, r.round);
}

fn write_challenge(out: &mut Vec<u8>, c: &Challenge)
    ensures
        final(out)@ == old(out)@ + wire_challenge(*c),
{
    write_u64(out, c.finalized_block.0);
    write_u64(out, c.finalized_block.1);
    write_headers(out, &c.finalized_block_proof.headers);
    write_commit(out, &c.finalized_block_proof.commit);
    write_u64(out, c.finalized_block_proof.round);
    write_rejecting(out, &c.rejecting_set);
}

fn write_change(out: &mut Vec<u8>, c: &ScheduledChange)
    ensures
        final(out)@ == old(out)@ + wire_change(*c),
{
    write_authorities(out, &c.next_authorities);
    write_u64(out, c.delay);
}

/// The bytes of a signal.
pub fn encode_signal(s: &Signal) -> (r: Vec<u8>)
    ensures
        r@ == wire_signal(*s),
{
    let mut out: Vec<u8> = Vec::new();
    match s {
        Signal::AuthoritiesChange(c) => {
            out.push(0u8);
            write_change(&mut out, c);
        },
        Signal::ForcedAuthoritiesChange(median, c) => {
            out.push(1u8);
            write_u64(&mut out, *median);
            write_change(&mut out, c);
        },
        Signal::PrevoteChallenge(c) => {
            out.push(2u8);
            write_challenge(&mut out, c);
        },
        Signal::PrecommitChallenge(c) => {
            out.push(3u8);
            write_challenge(&mut out, c);
        },
    }
    assert(out@ =~= wire_signal(*s));
    out
}

impl Signal {
    /// The change, if this signals a standard change.
    pub fn try_into_change(self) -> (r: Option<ScheduledChange>)
        ensures
            self matches Signal::AuthoritiesChange(c) ==> r == Some(c),
            !(self is AuthoritiesChange) ==> r is None,
    {
        match self {
            Signal::AuthoritiesChange(change) => Some(change),
            _ => None,
        }
    }

    /// The median and the change, if this signals a forced change.
    pub fn try_into_forced_change(self) -> (r: Option<(BlockNumber, ScheduledChange)>)
        ensures
            self matches Signal::ForcedAuthoritiesChange(m, c) ==> r == Some((m, c)),
            !(self is ForcedAuthoritiesChange) ==> r is None,
    {
        match self {
            Signal::ForcedAuthoritiesChange(median, change) => Some((median, change)),
            _ => None,
        }
    }

    /// The challenge, if this signals a dispute over prevotes.
    pub fn try_into_prevote_challenge(self) -> (r: Option<Challenge>)
        ensures
            self matches Signal::PrevoteChallenge(c) ==> r == Some(c),
            !(self is PrevoteChallenge) ==> r is None,
    {
        match self {
            Signal::PrevoteChallenge(challenge) => Some(challenge),
            _ => None,
        }
    }

    /// The challenge, if this signals a dispute over precommits.
    pub fn try_into_precommit_challenge(self) -> (r: Option<Challenge>)
        ensures
            self matches Signal::PrecommitChallenge(c) ==> r == Some(c),
            !(self is PrecommitChallenge) ==> r is None,
    {
        match self {
            Signal::PrecommitChallenge(challenge) => Some(challenge),
            _ => None,
        }
    }
}

} // verus!
