use vstd::prelude::*;
use vstd::bytes::lemma_auto_spec_u64_to_from_le_bytes;
use crate::codec::{
    is_at, le64, lemma_authorities_round_trip, lemma_split_at, lemma_word_at, read_authorities,
    read_authority_list, read_u64, wire_authorities, word_at,
};
use crate::digest::{
    wire_bytes, wire_challenge, wire_challenged_items, wire_challenged_vote, wire_change,
    wire_commit, wire_header, wire_header_items, wire_headers, wire_precommit_items, wire_proof,
    wire_rejecting, wire_signal, wire_signed_precommit, wire_vote, DigestItem, Signal,
    GRANDPA_ENGINE_ID,
};
use crate::authority::{Module, StoredPendingChange};
use crate::codec::{write_authorities, write_u64};
use crate::primitives::{
    AuthorityId, AuthorityWeight, BlockHash, BlockNumber, Challenge, ChallengedVote, Commit,
    FinalizedBlockProof, Header, RejectingVoteSet, ScheduledChange, SignedPrecommit, Vote,
};

verus! {

pub type PrecommitView = (Vote, Seq<u8>, AuthorityId);

pub type CommitView = (BlockHash, BlockNumber, Seq<PrecommitView>);

pub type ChallengedVoteView = (Vote, AuthorityId, Seq<u8>);

pub type ProofView = (Seq<Header>, CommitView, u64);

pub type RejectingView = (Seq<Header>, Seq<ChallengedVoteView>, u64);

pub type ChallengeView = ((BlockHash, BlockNumber), ProofView, RejectingView);

pub type ChangeView = (Seq<(AuthorityId, AuthorityWeight)>, BlockNumber);

/// The contents of a signal as plain values.
pub enum SignalView {
    AuthoritiesChange(ChangeView),
    ForcedAuthoritiesChange(BlockNumber, ChangeView),
    PrevoteChallenge(ChallengeView),
    PrecommitChallenge(ChallengeView),
}

pub open spec fn precommit_view(p: SignedPrecommit) -> PrecommitView {
    (p.precommit, p.signature@, p.id)
}

pub open spec fn precommits_view(s: Seq<SignedPrecommit>) -> Seq<PrecommitView> {
    Seq::new(s.len(), |i: int| precommit_view(s[i]))
}

pub open spec fn commit_view(c: Commit) -> CommitView {
    (c.target_hash, c.target_number, precommits_view(c.precommits@))
}

pub open spec fn challenged_vote_view(v: ChallengedVote) -> ChallengedVoteView {
    (v.vote, v.authority, v.signature@)
}

pub open spec fn challenged_votes_view(s: Seq<ChallengedVote>) -> Seq<ChallengedVoteView> {
    Seq::new(s.len(), |i: int| challenged_vote_view(s[i]))
}

pub open spec fn proof_view(p: FinalizedBlockProof) -> ProofView {
    (p.headers@, commit_view(p.commit), p.round)
}

pub open spec fn rejecting_view(r: RejectingVoteSet) -> RejectingView {
    (r.headers@, challenged_votes_view(r.votes@), r.round)
}

pub open spec fn challenge_view(c: Challenge) -> ChallengeView {
    (c.finalized_block, proof_view(c.finalized_block_proof), rejecting_view(c.rejecting_set))
}

pub open spec fn change_view(c: ScheduledChange) -> ChangeView {
    (c.next_authorities@, c.delay)
}

pub open spec fn signal_view(s: Signal) -> SignalView {
    match s {
        Signal::AuthoritiesChange(c) => SignalView::AuthoritiesChange(change_view(c)),
        Signal::ForcedAuthoritiesChange(m, c) => SignalView::ForcedAuthoritiesChange(m, change_view(c)),
        Signal::PrevoteChallenge(c) => SignalView::PrevoteChallenge(challenge_view(c)),
        Signal::PrecommitChallenge(c) => SignalView::PrecommitChallenge(challenge_view(c)),
    }
}

// Readers over bytes, each giving the value read at `pos` and the position after it.

pub open spec fn read_bytes(b: Seq<u8>, pos: int) -> Option<(Seq<u8>, int)> {
    match word_at(b, pos) {
        None => None,
        Some(n) => if pos + 8 + n <= b.len() {
            Some((b.subrange(pos + 8, pos + 8 + n), pos + 8 + n))
        } else {
            None
        },
    }
}

pub open spec fn read_vote(b: Seq<u8>, pos: int) -> Option<(Vote, int)> {
    match (word_at(b, pos), word_at(b, pos + 8)) {
        (Some(h), Some(n)) => Some((Vote { target_hash: h, target_number: n }, pos + 16)),
        _ => None,
    }
}

pub open spec fn read_header(b: Seq<u8>, pos: int) -> Option<(Header, int)> {
    match (word_at(b, pos), word_at(b, pos + 8), word_at(b, pos + 16)) {
        (Some(h), Some(p), Some(n)) => Some((Header { hash: h, parent_hash: p, number: n }, pos + 24)),
        _ => None,
    }
}

pub open spec fn read_header_items(b: Seq<u8>, pos: int, count: nat) -> Option<(Seq<Header>, int)>
    decreases count,
{
    if count == 0 {
        Some((Seq::empty(), pos))
    } else {
        match read_header_items(b, pos, (count - 1) as nat) {
            None => None,
            Some((s, p)) => match read_header(b, p) {
                None => None,
                Some((h, q)) => Some((s.push(h), q)),
            },
        }
    }
}

pub open spec fn read_headers(b: Seq<u8>, pos: int) -> Option<(Seq<Header>, int)> {
    match word_at(b, pos) {
        None => None,
        Some(n) => read_header_items(b, pos + 8, n as nat),
    }
}

pub open spec fn read_precommit(b: Seq<u8>, pos: int) -> Option<(PrecommitView, int)> {
    match read_vote(b, pos) {
        None => None,
        Some((v, p)) => match read_bytes(b, p) {
            None => None,
            Some((sig, q)) => match word_at(b, q) {
                None => None,
                Some(id) => Some(((v, sig, id), q + 8)),
            },
        },
    }
}

pub open spec fn read_precommit_items(b: Seq<u8>, pos: int, count: nat) -> Option<(Seq<PrecommitView>, int)>
    decreases count,
{
    if count == 0 {
        Some((Seq::empty(), pos))
    } else {
        match read_precommit_items(b, pos, (count - 1) as nat) {
            None => None,
            Some((s, p)) => match read_precommit(b, p) {
                None => None,
                Some((x, q)) => Some((s.push(x), q)),
            },
        }
    }
}

pub open spec fn read_commit(b: Seq<u8>, pos: int) -> Option<(CommitView, int)> {
    match (word_at(b, pos), word_at(b, pos + 8), word_at(b, pos + 16)) {
        (Some(h), Some(n), Some(k)) => match read_precommit_items(b, pos + 24, k as nat) {
            None => None,
            Some((s, p)) => Some(((h, n, s), p)),
        },
        _ => None,
    }
}

pub open spec fn read_challenged_vote(b: Seq<u8>, pos: int) -> Option<(ChallengedVoteView, int)> {
    match read_vote(b, pos) {
        None => None,
        Some((v, p)) => match word_at(b, p) {
            None => None,
            Some(a) => match read_bytes(b, p + 8) {
                None => None,
                Some((sig, q)) => Some(((v, a, sig), q)),
            },
        },
    }
}

pub open spec fn read_challenged_items(b: Seq<u8>, pos: int, count: nat) -> Option<(Seq<ChallengedVoteView>, int)>
    decreases count,
{
    if count == 0 {
        Some((Seq::empty(), pos))
    } else {
        match read_challenged_items(b, pos, (count - 1) as nat) {
            None => None,
            Some((s, p)) => match read_challenged_vote(b, p) {
                None => None,
                Some((x, q)) => Some((s.push(x), q)),
            },
        }
    }
}

pub open spec fn read_proof(b: Seq<u8>, pos: int) -> Option<(ProofView, int)> {
    match read_headers(b, pos) {
        None => None,
        Some((hs, p)) => match read_commit(b, p) {
            None => None,
            Some((c, q)) => match word_at(b, q) {
                None => None,
                Some(r) => Some(((hs, c, r), q + 8)),
            },
        },
    }
}

pub open spec fn read_rejecting(b: Seq<u8>, pos: int) -> Option<(RejectingView, int)> {
    match read_headers(b, pos) {
        None => None,
        Some((hs, p)) => match word_at(b, p) {
            None => None,
            Some(k) => match read_challenged_items(b, p + 8, k as nat) {
                None => None,
                Some((vs, q)) => match word_at(b, q) {
                    None => None,
                    Some(r) => Some(((hs, vs, r), q + 8)),
                },
            },
        },
    }
}

pub open spec fn read_challenge(b: Seq<u8>, pos: int) -> Option<(ChallengeView, int)> {
    match (word_at(b, pos), word_at(b, pos + 8)) {
        (Some(h), Some(n)) => match read_proof(b, pos + 16) {
            None => None,
            Some((pr, p)) => match read_rejecting(b, p) {
                None => None,
                Some((rj, q)) => Some((((h, n), pr, rj), q)),
            },
        },
        _ => None,
    }
}

pub open spec fn read_change(b: Seq<u8>, pos: int) -> Option<(ChangeView, int)> {
    match read_authorities(b, pos) {
        None => None,
        Some((s, p)) => match word_at(b, p) {
            None => None,
            Some(d) => Some(((s, d), p + 8)),
        },
    }
}

/// The signal that the whole of `b` holds, if it holds one.
pub open spec fn read_signal(b: Seq<u8>) -> Option<SignalView> {
    if b.len() == 0 {
        None
    } else {
        let body = if b[0] == 0u8 {
            match read_change(b, 1) {
                Some((c, p)) => Some((SignalView::AuthoritiesChange(c), p)),
                None => None,
            }
        } else if b[0] == 1u8 {
            match word_at(b, 1) {
                None => None,
                Some(m) => match read_change(b, 9) {
                    Some((c, p)) => Some((SignalView::ForcedAuthoritiesChange(m, c), p)),
                    None => None,
                },
            }
        } else if b[0] == 2u8 {
            match read_challenge(b, 1) {
                Some((c, p)) => Some((SignalView::PrevoteChallenge(c), p)),
                None => None,
            }
        } else if b[0] == 3u8 {
            match read_challenge(b, 1) {
                Some((c, p)) => Some((SignalView::PrecommitChallenge(c), p)),
                None => None,
            }
        } else {
            None
        };
        match body {
            Some((v, p)) => if p == b.len() {
                Some(v)
            } else {
                None
            },
            None => None,
        }
    }
}

// Writing a value at `pos` and reading it back gives its contents.

proof fn lemma_whole(w: Seq<u8>)
    ensures
        is_at(w, w, 0),
{
    assert(w.subrange(0, w.len() as int) =~= w);
}

proof fn lemma_bytes_rt(s: Seq<u8>, b: Seq<u8>, pos: int)
    requires
        is_at(wire_bytes(s), b, pos),
        b.len() <= usize::MAX,
    ensures
        read_bytes(b, pos) == Some((s, pos + wire_bytes(s).len())),
{
    lemma_split_at(le64(s.len() as u64), s, b, pos);
    lemma_word_at(s.len() as u64, b, pos);
    assert(s.len() as u64 == s.len());
}

proof fn lemma_vote_rt(v: Vote, b: Seq<u8>, pos: int)
    requires
        is_at(wire_vote(v), b, pos),
    ensures
        read_vote(b, pos) == Some((v, pos + wire_vote(v).len())),
        wire_vote(v).len() == 16,
{
    lemma_split_at(le64(v.target_hash), le64(v.target_number), b, pos);
    lemma_word_at(v.target_hash, b, pos);
    lemma_word_at(v.target_number, b, pos + 8);
}

proof fn lemma_header_rt(h: Header, b: Seq<u8>, pos: int)
    requires
        is_at(wire_header(h), b, pos),
    ensures
        read_header(b, pos) == Some((h, pos + wire_header(h).len())),
        wire_header(h).len() == 24,
{
    lemma_split_at(le64(h.hash) + le64(h.parent_hash), le64(h.number), b, pos);
    lemma_split_at(le64(h.hash), le64(h.parent_hash), b, pos);
    lemma_word_at(h.hash, b, pos);
    lemma_word_at(h.parent_hash, b, pos + 8);
    lemma_word_at(h.number, b, pos + 16);
}

proof fn lemma_header_items_rt(s: Seq<Header>, b: Seq<u8>, pos: int)
    requires
        is_at(wire_header_items(s), b, pos),
    ensures
        read_header_items(b, pos, s.len()) == Some((s, pos + wire_header_items(s).len())),
        wire_header_items(s).len() >= s.len(),
    decreases s.len(),
{
    if s.len() > 0 {
        let init = s.drop_last();
        lemma_split_at(wire_header_items(init), wire_header(s.last()), b, pos);
        lemma_header_items_rt(init, b, pos);
        lemma_header_rt(s.last(), b, pos + wire_header_items(init).len());
        assert(init.push(s.last()) =~= s);
    }
}

proof fn lemma_headers_rt(s: Seq<Header>, b: Seq<u8>, pos: int)
    requires
        is_at(wire_headers(s), b, pos),
        b.len() <= usize::MAX,
    ensures
        read_headers(b, pos) == Some((s, pos + wire_headers(s).len())),
{
    lemma_split_at(le64(s.len() as u64), wire_header_items(s), b, pos);
    lemma_word_at(s.len() as u64, b, pos);
    lemma_header_items_rt(s, b, pos + 8);
    assert(s.len() as u64 == s.len());
}

proof fn lemma_precommit_rt(x: SignedPrecommit, b: Seq<u8>, pos: int)
    requires
        is_at(wire_signed_precommit(x), b, pos),
        b.len() <= usize::MAX,
    ensures
        read_precommit(b, pos) == Some((precommit_view(x), pos + wire_signed_precommit(x).len())),
        wire_signed_precommit(x).len() >= 1,
{
    let w1 = wire_vote(x.precommit);
    let w2 = wire_bytes(x.signature@);
    lemma_split_at(w1 + w2, le64(x.id), b, pos);
    lemma_split_at(w1, w2, b, pos);
    lemma_vote_rt(x.precommit, b, pos);
    lemma_bytes_rt(x.signature@, b, pos + 16);
    lemma_word_at(x.id, b, pos + 16 + w2.len());
}

proof fn lemma_precommit_items_rt(s: Seq<SignedPrecommit>, b: Seq<u8>, pos: int)
    requires
        is_at(wire_precommit_items(s), b, pos),
        b.len() <= usize::MAX,
    ensures
        read_precommit_items(b, pos, s.len()) == Some((precommits_view(s), pos + wire_precommit_items(s).len())),
        wire_precommit_items(s).len() >= s.len(),
    decreases s.len(),
{
    if s.len() == 0 {
        assert(precommits_view(s) =~= Seq::<PrecommitView>::empty());
    } else {
        let init = s.drop_last();
        lemma_split_at(wire_precommit_items(init), wire_signed_precommit(s.last()), b, pos);
        lemma_precommit_items_rt(init, b, pos);
        lemma_precommit_rt(s.last(), b, pos + wire_precommit_items(init).len());
        assert(precommits_view(init).push(precommit_view(s.last())) =~= precommits_view(s));
    }
}

proof fn lemma_commit_rt(c: Commit, b: Seq<u8>, pos: int)
    requires
        is_at(wire_commit(c), b, pos),
        b.len() <= usize::MAX,
    ensures
        read_commit(b, pos) == Some((commit_view(c), pos + wire_commit(c).len())),
{
    let s = c.precommits@;
    let a = le64(c.target_hash) + le64(c.target_number);
    lemma_split_at(a + le64(s.len() as u64), wire_precommit_items(s), b, pos);
    lemma_split_at(a, le64(s.len() as u64), b, pos);
    lemma_split_at(le64(c.target_hash), le64(c.target_number), b, pos);
    lemma_word_at(c.target_hash, b, pos);
    lemma_word_at(c.target_number, b, pos + 8);
    lemma_word_at(s.len() as u64, b, pos + 16);
    lemma_precommit_items_rt(s, b, pos + 24);
    assert(s.len() as u64 == s.len());
}

proof fn lemma_challenged_vote_rt(x: ChallengedVote, b: Seq<u8>, pos: int)
    requires
        is_at(wire_challenged_vote(x), b, pos),
        b.len() <= usize::MAX,
    ensures
        read_challenged_vote(b, pos) == Some((challenged_vote_view(x), pos + wire_challenged_vote(x).len())),
        wire_challenged_vote(x).len() >= 1,
{
    let w1 = wire_vote(x.vote);
    lemma_split_at(w1 + le64(x.authority), wire_bytes(x.signature@), b, pos);
    lemma_split_at(w1, le64(x.authority), b, pos);
    lemma_vote_rt(x.vote, b, pos);
    lemma_word_at(x.authority, b, pos + 16);
    lemma_bytes_rt(x.signature@, b, pos + 24);
}

proof fn lemma_challenged_items_rt(s: Seq<ChallengedVote>, b: Seq<u8>, pos: int)
    requires
        is_at(wire_challenged_items(s), b, pos),
        b.len() <= usize::MAX,
    ensures
        read_challenged_items(b, pos, s.len()) == Some((challenged_votes_view(s), pos + wire_challenged_items(s).len())),
        wire_challenged_items(s).len() >= s.len(),
    decreases s.len(),
{
    if s.len() == 0 {
        assert(challenged_votes_view(s) =~= Seq::<ChallengedVoteView>::empty());
    } else {
        let init = s.drop_last();
        lemma_split_at(wire_challenged_items(init), wire_challenged_vote(s.last()), b, pos);
        lemma_challenged_items_rt(init, b, pos);
        lemma_challenged_vote_rt(s.last(), b, pos + wire_challenged_items(init).len());
        assert(challenged_votes_view(init).push(challenged_vote_view(s.last())) =~= challenged_votes_view(s));
    }
}

proof fn lemma_proof_rt(x: FinalizedBlockProof, b: Seq<u8>, pos: int)
    requires
        is_at(wire_proof(x), b, pos),
        b.len() <= usize::MAX,
    ensures
        read_proof(b, pos) == Some((proof_view(x), pos + wire_proof(x).len())),
{
    let w1 = wire_headers(x.headers@);
    let w2 = wire_commit(x.commit);
    lemma_split_at(w1 + w2, le64(x.round), b, pos);
    lemma_split_at(w1, w2, b, pos);
    lemma_headers_rt(x.headers@, b, pos);
    lemma_commit_rt(x.commit, b, pos + w1.len());
    lemma_word_at(x.round, b, pos + w1.len() + w2.len());
}

proof fn lemma_rejecting_rt(x: RejectingVoteSet, b: Seq<u8>, pos: int)
    requires
        is_at(wire_rejecting(x), b, pos),
        b.len() <= usize::MAX,
    ensures
        read_rejecting(b, pos) == Some((rejecting_view(x), pos + wire_rejecting(x).len())),
{
    let s = x.votes@;
    let w1 = wire_headers(x.headers@);
    let w2 = le64(s.len() as u64);
    let w3 = wire_challenged_items(s);
    lemma_split_at(w1 + w2 + w3, le64(x.round), b, pos);
    lemma_split_at(w1 + w2, w3, b, pos);
    lemma_split_at(w1, w2, b, pos);
    lemma_headers_rt(x.headers@, b, pos);
    lemma_word_at(s.len() as u64, b, pos + w1.len());
    lemma_challenged_items_rt(s, b, pos + w1.len() + 8);
    lemma_word_at(x.round, b, pos + w1.len() + 8 + w3.len());
    assert(s.len() as u64 == s.len());
}

proof fn lemma_challenge_rt(c: Challenge, b: Seq<u8>, pos: int)
    requires
        is_at(wire_challenge(c), b, pos),
        b.len() <= usize::MAX,
    ensures
        read_challenge(b, pos) == Some((challenge_view(c), pos + wire_challenge(c).len())),
{
    let a = le64(c.finalized_block.0) + le64(c.finalized_block.1);
    let w1 = wire_proof(c.finalized_block_proof);
    lemma_split_at(a + w1, wire_rejecting(c.rejecting_set), b, pos);
    lemma_split_at(a, w1, b, pos);
    lemma_split_at(le64(c.finalized_block.0), le64(c.finalized_block.1), b, pos);
    lemma_word_at(c.finalized_block.0, b, pos);
    lemma_word_at(c.finalized_block.1, b, pos + 8);
    lemma_proof_rt(c.finalized_block_proof, b, pos + 16);
    lemma_rejecting_rt(c.rejecting_set, b, pos + 16 + w1.len());
}

proof fn lemma_change_rt(c: ScheduledChange, b: Seq<u8>, pos: int)
    requires
        is_at(wire_change(c), b, pos),
        b.len() <= usize::MAX,
    ensures
        read_change(b, pos) == Some((change_view(c), pos + wire_change(c).len())),
{
    let w1 = wire_authorities(c.next_authorities@);
    lemma_split_at(w1, le64(c.delay), b, pos);
    lemma_authorities_round_trip(c.next_authorities@, b, pos);
    lemma_word_at(c.delay, b, pos + w1.len());
}

/// Decoding the bytes of any signal gives back its contents.
pub proof fn lemma_signal_round_trip(s: Signal)
    requires
        wire_signal(s).len() <= usize::MAX,
    ensures
        read_signal(wire_signal(s)) == Some(signal_view(s)),
{
    let b = wire_signal(s);
    lemma_whole(b);
    lemma_auto_spec_u64_to_from_le_bytes();
    match s {
        Signal::AuthoritiesChange(c) => {
            lemma_split_at(seq![0u8], wire_change(c), b, 0);
            lemma_change_rt(c, b, 1);
        },
        Signal::ForcedAuthoritiesChange(m, c) => {
            lemma_split_at(seq![1u8] + le64(m), wire_change(c), b, 0);
            lemma_split_at(seq![1u8], le64(m), b, 0);
            lemma_word_at(m, b, 1);
            lemma_change_rt(c, b, 9);
        },
        Signal::PrevoteChallenge(c) => {
            lemma_split_at(seq![2u8], wire_challenge(c), b, 0);
            lemma_challenge_rt(c, b, 1);
        },
        Signal::PrecommitChallenge(c) => {
            lemma_split_at(seq![3u8], wire_challenge(c), b, 0);
            lemma_challenge_rt(c, b, 1);
        },
    }
}

// Executable readers, each proved to read what the readers above describe.

proof fn lemma_header_items_none(b: Seq<u8>, pos: int, i: nat, m: nat)
    requires
        i <= m,
        read_header_items(b, pos, i) is None,
    ensures
        read_header_items(b, pos, m) is None,
    decreases m,
{
    if m > i {
        lemma_header_items_none(b, pos, i, (m - 1) as nat);
    }
}

proof fn lemma_precommit_items_none(b: Seq<u8>, pos: int, i: nat, m: nat)
    requires
        i <= m,
        read_precommit_items(b, pos, i) is None,
    ensures
        read_precommit_items(b, pos, m) is None,
    decreases m,
{
    if m > i {
        lemma_precommit_items_none(b, pos, i, (m - 1) as nat);
    }
}

proof fn lemma_challenged_items_none(b: Seq<u8>, pos: int, i: nat, m: nat)
    requires
        i <= m,
        read_challenged_items(b, pos, i) is None,
    ensures
        read_challenged_items(b, pos, m) is None,
    decreases m,
{
    if m > i {
        lemma_challenged_items_none(b, pos, i, (m - 1) as nat);
    }
}

fn read_bytes_at(b: &Vec<u8>, pos: usize) -> (r: Option<(Vec<u8>, usize)>)
    ensures
        r matches Some((v, p)) ==> read_bytes(b@, pos as int) == Some((v@, p as int)) && p <= b@.len(),
        r is None ==> read_bytes(b@, pos as int) is None,
{
    let blen = b.len();
    let n = match read_u64(b, pos) {
        None => return None,
        Some(n) => n,
    };
    let start = pos + 8;
    if n as u128 > (b.len() - start) as u128 {
        return None;
    }
    let n = n as usize;
    let mut v: Vec<u8> = Vec::new();
    let mut i: usize = 0;
    while i < n
        invariant
            start + n <= b@.len(),
            blen == b@.len(),
            i <= n,
            v@ == b@.subrange(start as int, start + i),
        decreases n - i,
    {
        v.push(b[start + i]);
        assert(v@ =~= b@.subrange(start as int, start + i + 1));
        i = i + 1;
    }
    Some((v, start + n))
}

fn read_vote_at(b: &Vec<u8>, pos: usize) -> (r: Option<(Vote, usize)>)
    ensures
        r matches Some((v, p)) ==> read_vote(b@, pos as int) == Some((v, p as int)) && p <= b@.len(),
        r is None ==> read_vote(b@, pos as int) is None,
{
    let blen = b.len();
    let h = match read_u64(b, pos) {
        None => return None,
        Some(x) => x,
    };
    let n = match read_u64(b, pos + 8) {
        None => return None,
        Some(x) => x,
    };
    Some((Vote { target_hash: h, target_number: n }, pos + 16))
}

fn read_headers_at(b: &Vec<u8>, pos: usize) -> (r: Option<(Vec<Header>, usize)>)
    ensures
        r matches Some((v, p)) ==> read_headers(b@, pos as int) == Some((v@, p as int)) && p <= b@.len(),
        r is None ==> read_headers(b@, pos as int) is None,
{
    let blen = b.len();
    let n = match read_u64(b, pos) {
        None => return None,
        Some(n) => n,
    };
    let mut v: Vec<Header> = Vec::new();
    let mut p: usize = pos + 8;
    let mut i: u64 = 0;
    while i < n
        invariant
            i <= n,
            p <= b@.len(),
            blen == b@.len(),
            word_at(b@, pos as int) == Some(n),
            read_header_items(b@, pos + 8, i as nat) == Some((v@, p as int)),
        decreases n - i,
    {
        let h = match read_u64(b, p) {
            None => {
                proof {
                    lemma_header_items_none(b@, pos + 8, (i + 1) as nat, n as nat);
                }
                return None;
            },
            Some(x) => x,
        };
        let q = match read_u64(b, p + 8) {
            None => {
                proof {
                    lemma_header_items_none(b@, pos + 8, (i + 1) as nat, n as nat);
                }
                return None;
            },
            Some(x) => x,
        };
        let m = match read_u64(b, p + 16) {
            None => {
                proof {
                    lemma_header_items_none(b@, pos + 8, (i + 1) as nat, n as nat);
                }
                return None;
            },
            Some(x) => x,
        };
        v.push(Header { hash: h, parent_hash: q, number: m });
        p = p + 24;
        i = i + 1;
    }
    Some((v, p))
}

fn read_precommit_at(b: &Vec<u8>, pos: usize) -> (r: Option<(SignedPrecommit, usize)>)
    ensures
        r matches Some((x, p)) ==> read_precommit(b@, pos as int) == Some((precommit_view(x), p as int)) && p <= b@.len(),
        r is None ==> read_precommit(b@, pos as int) is None,
{
    let blen = b.len();
    let (vote, p) = match read_vote_at(b, pos) {
        None => return None,
        Some(x) => x,
    };
    let (sig, q) = match read_bytes_at(b, p) {
        None => return None,
        Some(x) => x,
    };
    let id = match read_u64(b, q) {
        None => return None,
        Some(x) => x,
    };
    Some((SignedPrecommit { precommit: vote, signature: sig, id }, q + 8))
}

fn read_commit_at(b: &Vec<u8>, pos: usize) -> (r: Option<(Commit, usize)>)
    ensures
        r matches Some((c, p)) ==> read_commit(b@, pos as int) == Some((commit_view(c), p as int)) && p <= b@.len(),
        r is None ==> read_commit(b@, pos as int) is None,
{
    let blen = b.len();
    let h = match read_u64(b, pos) {
        None => return None,
        Some(x) => x,
    };
    let num = match read_u64(b, pos + 8) {
        None => return None,
        Some(x) => x,
    };
    let n = match read_u64(b, pos + 16) {
        None => return None,
        Some(x) => x,
    };
    let mut v: Vec<SignedPrecommit> = Vec::new();
    let mut p: usize = pos + 24;
    let mut i: u64 = 0;
    assert(precommits_view(v@) =~= Seq::<PrecommitView>::empty());
    while i < n
        invariant
            i <= n,
            p <= b@.len(),
            blen == b@.len(),
            word_at(b@, pos + 16) == Some(n),
            read_precommit_items(b@, pos + 24, i as nat) == Some((precommits_view(v@), p as int)),
        decreases n - i,
    {
        let (x, q) = match read_precommit_at(b, p) {
            None => {
                proof {
                    lemma_precommit_items_none(b@, pos + 24, (i + 1) as nat, n as nat);
                }
                return None;
            },
            Some(x) => x,
        };
        let ghost before = v@;
        v.push(x);
        assert(precommits_view(before).push(precommit_view(x)) =~= precommits_view(v@));
        p = q;
        i = i + 1;
    }
    Some((Commit { target_hash: h, target_number: num, precommits: v }, p))
}

fn read_challenged_vote_at(b: &Vec<u8>, pos: usize) -> (r: Option<(ChallengedVote, usize)>)
    ensures
        r matches Some((x, p)) ==> read_challenged_vote(b@, pos as int) == Some((challenged_vote_view(x), p as int))
            && p <= b@.len(),
        r is None ==> read_challenged_vote(b@, pos as int) is None,
{
    let blen = b.len();
    let (vote, p) = match read_vote_at(b, pos) {
        None => return None,
        Some(x) => x,
    };
    let a = match read_u64(b, p) {
        None => return None,
        Some(x) => x,
    };
    let (sig, q) = match read_bytes_at(b, p + 8) {
        None => return None,
        Some(x) => x,
    };
    Some((ChallengedVote { vote, authority: a, signature: sig }, q))
}

fn read_proof_at(b: &Vec<u8>, pos: usize) -> (r: Option<(FinalizedBlockProof, usize)>)
    ensures
        r matches Some((x, p)) ==> read_proof(b@, pos as int) == Some((proof_view(x), p as int)) && p <= b@.len(),
        r is None ==> read_proof(b@, pos as int) is None,
{
    let blen = b.len();
    let (headers, p) = match read_headers_at(b, pos) {
        None => return None,
        Some(x) => x,
    };
    let (commit, q) = match read_commit_at(b, p) {
        None => return None,
        Some(x) => x,
    };
    let round = match read_u64(b, q) {
        None => return None,
        Some(x) => x,
    };
    Some((FinalizedBlockProof { headers, commit, round }, q + 8))
}

fn read_rejecting_at(b: &Vec<u8>, pos: usize) -> (r: Option<(RejectingVoteSet, usize)>)
    ensures
        r matches Some((x, p)) ==> read_rejecting(b@, pos as int) == Some((rejecting_view(x), p as int)) && p <= b@.len(),
        r is None ==> read_rejecting(b@, pos as int) is None,
{
    let blen = b.len();
    let (headers, p0) = match read_headers_at(b, pos) {
        None => return None,
        Some(x) => x,
    };
    let n = match read_u64(b, p0) {
        None => return None,
        Some(x) => x,
    };
    let mut v: Vec<ChallengedVote> = Vec::new();
    let mut p: usize = p0 + 8;
    let mut i: u64 = 0;
    assert(challenged_votes_view(v@) =~= Seq::<ChallengedVoteView>::empty());
    while i < n
        invariant
            i <= n,
            p <= b@.len(),
            blen == b@.len(),
            word_at(b@, p0 as int) == Some(n),
            read_headers(b@, pos as int) == Some((headers@, p0 as int)),
            read_challenged_items(b@, p0 + 8, i as nat) == Some((challenged_votes_view(v@), p as int)),
        decreases n - i,
    {
        let (x, q) = match read_challenged_vote_at(b, p) {
            None => {
                proof {
                    lemma_challenged_items_none(b@, p0 + 8, (i + 1) as nat, n as nat);
                }
                return None;
            },
            Some(x) => x,
        };
        let ghost before = v@;
        v.push(x);
        assert(challenged_votes_view(before).push(challenged_vote_view(x)) =~= challenged_votes_view(v@));
        p = q;
        i = i + 1;
    }
    let round = match read_u64(b, p) {
        None => return None,
        Some(x) => x,
    };
    Some((RejectingVoteSet { headers, votes: v, round }, p + 8))
}

fn read_challenge_at(b: &Vec<u8>, pos: usize) -> (r: Option<(Challenge, usize)>)
    ensures
        r matches Some((x, p)) ==> read_challenge(b@, pos as int) == Some((challenge_view(x), p as int)) && p <= b@.len(),
        r is None ==> read_challenge(b@, pos as int) is None,
{
    let blen = b.len();
    let h = match read_u64(b, pos) {
        None => return None,
        Some(x) => x,
    };
    let n = match read_u64(b, pos + 8) {
        None => return None,
        Some(x) => x,
    };
    let (proof, p) = match read_proof_at(b, pos + 16) {
        None => return None,
        Some(x) => x,
    };
    let (rejecting, q) = match read_rejecting_at(b, p) {
        None => return None,
        Some(x) => x,
    };
    Some((Challenge { finalized_block: (h, n), finalized_block_proof: proof, rejecting_set: rejecting }, q))
}

fn read_change_at(b: &Vec<u8>, pos: usize) -> (r: Option<(ScheduledChange, usize)>)
    ensures
        r matches Some((x, p)) ==> read_change(b@, pos as int) == Some((change_view(x), p as int)) && p <= b@.len(),
        r is None ==> read_change(b@, pos as int) is None,
{
    let blen = b.len();
    let (next_authorities, p) = match read_authority_list(b, pos) {
        None => return None,
        Some(x) => x,
    };
    let delay = match read_u64(b, p) {
        None => return None,
        Some(x) => x,
    };
    Some((ScheduledChange { next_authorities, delay }, p + 8))
}

/// Decodes a signal that fills the whole of `b`.
pub fn decode_signal(b: &Vec<u8>) -> (r: Option<Signal>)
    ensures
        r matches Some(s) ==> read_signal(b@) == Some(signal_view(s)),
        r is None ==> read_signal(b@) is None,
{
    if b.len() == 0 {
        return None;
    }
    let tag = b[0];
    let body: Option<(Signal, usize)> = if tag == 0u8 {
        match read_change_at(b, 1) {
            Some((c, p)) => Some((Signal::AuthoritiesChange(c), p)),
            None => None,
        }
    } else if tag == 1u8 {
        match read_u64(b, 1) {
            None => None,
            Some(m) => match read_change_at(b, 9) {
                Some((c, p)) => Some((Signal::ForcedAuthoritiesChange(m, c), p)),
                None => None,
            },
        }
    } else if tag == 2u8 {
        match read_challenge_at(b, 1) {
            Some((c, p)) => Some((Signal::PrevoteChallenge(c), p)),
            None => None,
        }
    } else if tag == 3u8 {
        match read_challenge_at(b, 1) {
            Some((c, p)) => Some((Signal::PrecommitChallenge(c), p)),
            None => None,
        }
    } else {
        None
    };
    match body {
        Some((s, p)) => if p == b.len() {
            Some(s)
        } else {
            None
        },
        None => None,
    }
}

/// The first signal of this engine that decodes, at or after entry `i`.
pub open spec fn first_signal(items: Seq<DigestItem>, i: int) -> Option<SignalView>
    decreases items.len() - i,
{
    if i < 0 || i >= items.len() {
        None
    } else if items[i].engine == GRANDPA_ENGINE_ID && read_signal(items[i].data@) is Some {
        read_signal(items[i].data@)
    } else {
        first_signal(items, i + 1)
    }
}

/// An entry holding the bytes of a signal under this engine's identifier
/// gives that signal back.
pub proof fn lemma_digest_round_trip(s: Signal, item: DigestItem)
    requires
        item.engine == GRANDPA_ENGINE_ID,
        item.data@ == wire_signal(s),
        wire_signal(s).len() <= usize::MAX,
    ensures
        first_signal(seq![item], 0) == Some(signal_view(s)),
{
    lemma_signal_round_trip(s);
}

/// An entry under another engine's identifier gives no signal, whatever it holds.
pub proof fn lemma_other_engine(item: DigestItem)
    requires
        item.engine != GRANDPA_ENGINE_ID,
    ensures
        first_signal(seq![item], 0) is None,
{
    assert(first_signal(seq![item], 1) is None);
}

impl Module {
    /// The first signal of this engine in a block digest that decodes;
    /// entries of other engines, or that do not decode, are skipped.
    pub fn grandpa_log(digest: &Vec<DigestItem>) -> (r: Option<Signal>)
        ensures
            r matches Some(s) ==> first_signal(digest@, 0) == Some(signal_view(s)),
            r is None ==> first_signal(digest@, 0) is None,
    {
        let mut i: usize = 0;
        while i < digest.len()
            invariant
                i <= digest@.len(),
                first_signal(digest@, 0) == first_signal(digest@, i as int),
            decreases digest@.len() - i,
        {
            if digest[i].engine == GRANDPA_ENGINE_ID {
                match decode_signal(&digest[i].data) {
                    Some(s) => {
                        return Some(s);
                    },
                    None => {},
                }
            }
            i = i + 1;
        }
        None
    }

    /// The standard change that a block digest signals, if any.
    pub fn pending_change(digest: &Vec<DigestItem>) -> (r: Option<ScheduledChange>)
        ensures
            r matches Some(c) ==> first_signal(digest@, 0) == Some(SignalView::AuthoritiesChange(change_view(c))),
            r is None ==> !(first_signal(digest@, 0) matches Some(SignalView::AuthoritiesChange(_))),
    {
        match Self::grandpa_log(digest) {
            Some(s) => s.try_into_change(),
            None => None,
        }
    }

    /// The forced change that a block digest signals, with its median, if any.
    pub fn forced_change(digest: &Vec<DigestItem>) -> (r: Option<(BlockNumber, ScheduledChange)>)
        ensures
            r matches Some((m, c)) ==> first_signal(digest@, 0) == Some(SignalView::ForcedAuthoritiesChange(m, change_view(c))),
            r is None ==> !(first_signal(digest@, 0) matches Some(SignalView::ForcedAuthoritiesChange(_, _))),
    {
        match Self::grandpa_log(digest) {
            Some(s) => s.try_into_forced_change(),
            None => None,
        }
    }

    /// The prevote challenge that a block digest signals, if any.
    pub fn grandpa_prevote_challenge(digest: &Vec<DigestItem>) -> (r: Option<Challenge>)
        ensures
            r matches Some(c) ==> first_signal(digest@, 0) == Some(SignalView::PrevoteChallenge(challenge_view(c))),
            r is None ==> !(first_signal(digest@, 0) matches Some(SignalView::PrevoteChallenge(_))),
    {
        match Self::grandpa_log(digest) {
            Some(s) => s.try_into_prevote_challenge(),
            None => None,
        }
    }

    /// The precommit challenge that a block digest signals, if any.
    pub fn grandpa_precommit_challenge(digest: &Vec<DigestItem>) -> (r: Option<Challenge>)
        ensures
            r matches Some(c) ==> first_signal(digest@, 0) == Some(SignalView::PrecommitChallenge(challenge_view(c))),
            r is None ==> !(first_signal(digest@, 0) matches Some(SignalView::PrecommitChallenge(_))),
    {
        match Self::grandpa_log(digest) {
            Some(s) => s.try_into_precommit_challenge(),
            None => None,
        }
    }
}

/// A stored pending change in the format that predates forced changes.
pub struct OldStoredPendingChange {
    /// The block number this was scheduled at.
    pub scheduled_at: BlockNumber,
    /// The delay in blocks until it is applied.
    pub delay: BlockNumber,
    /// The next authority set.
    pub next_authorities: Vec<(AuthorityId, AuthorityWeight)>,
}

/// Bytes of a stored pending change: the fields of the old format, then
/// the forced median as an option (a zero byte, or a one byte and the median).
pub open spec fn wire_stored_change(pc: StoredPendingChange) -> Seq<u8> {
    le64(pc.scheduled_at) + le64(pc.delay) + wire_authorities(pc.next_authorities@) + match pc.forced {
        None => seq![0u8],
        Some(m) => seq![1u8] + le64(m),
    }
}

/// The contents of a stored pending change as plain values.
pub type StoredChangeView = (BlockNumber, BlockNumber, Seq<(AuthorityId, AuthorityWeight)>, Option<BlockNumber>);

pub open spec fn stored_change_view(pc: StoredPendingChange) -> StoredChangeView {
    (pc.scheduled_at, pc.delay, pc.next_authorities@, pc.forced)
}

/// The forced median after the old fields: absent or unreadable reads as none.
pub open spec fn read_forced(b: Seq<u8>, pos: int) -> Option<BlockNumber> {
    if 0 <= pos < b.len() && b[pos] == 1u8 {
        word_at(b, pos + 1)
    } else {
        None
    }
}

/// A stored pending change read from `b`: the old fields must be there.
pub open spec fn read_stored_change(b: Seq<u8>) -> Option<StoredChangeView> {
    match (word_at(b, 0), word_at(b, 8)) {
        (Some(at), Some(d)) => match read_authorities(b, 16) {
            None => None,
            Some((s, p)) => Some((at, d, s, read_forced(b, p))),
        },
        _ => None,
    }
}

/// The bytes of a stored pending change.
pub fn encode_stored_change(pc: &StoredPendingChange) -> (r: Vec<u8>)
    ensures
        r@ == wire_stored_change(*pc),
{
    let mut out: Vec<u8> = Vec::new();
    write_u64(&mut out, pc.scheduled_at);
    write_u64(&mut out, pc.delay);
    write_authorities(&mut out, &pc.next_authorities);
    match pc.forced {
        None => {
            out.push(0u8);
        },
        Some(m) => {
            out.push(1u8);
            write_u64(&mut out, m);
        },
    }
    assert(out@ =~= wire_stored_change(*pc));
    out
}

/// The fields of the old format read from the start of `b`, and the
/// position after them.
pub open spec fn read_old_change(b: Seq<u8>) -> Option<(BlockNumber, BlockNumber, Seq<(AuthorityId, AuthorityWeight)>, int)> {
    match (word_at(b, 0), word_at(b, 8)) {
        (Some(at), Some(d)) => match read_authorities(b, 16) {
            None => None,
            Some((s, p)) => Some((at, d, s, p)),
        },
        _ => None,
    }
}

impl OldStoredPendingChange {
    /// Reads a pending change in the old format from the start of `b`, with
    /// the position after it.
    pub fn decode(b: &Vec<u8>) -> (r: Option<(OldStoredPendingChange, usize)>)
        ensures
            r matches Some((c, p)) ==> read_old_change(b@) == Some((c.scheduled_at, c.delay, c.next_authorities@, p as int))
                && p <= b@.len(),
            r is None ==> read_old_change(b@) is None,
    {
        let blen = b.len();
        let scheduled_at = match read_u64(b, 0) {
            None => return None,
            Some(x) => x,
        };
        let delay = match read_u64(b, 8) {
            None => return None,
            Some(x) => x,
        };
        let (next_authorities, p) = match read_authority_list(b, 16) {
            None => return None,
            Some(x) => x,
        };
        assert(p <= b@.len()) by {
            crate::codec::lemma_read_authorities_bound(b@, 16);
        }
        Some((OldStoredPendingChange { scheduled_at, delay, next_authorities }, p))
    }
}

impl StoredPendingChange {
    /// Reads a stored pending change, in the current format or the old one
    /// without the forced median.
    pub fn decode(b: &Vec<u8>) -> (r: Option<StoredPendingChange>)
        ensures
            r matches Some(pc) ==> read_stored_change(b@) == Some(stored_change_view(pc)),
            r is None ==> read_stored_change(b@) is None,
    {
        let (old, p) = match OldStoredPendingChange::decode(b) {
            None => return None,
            Some(x) => x,
        };
        let OldStoredPendingChange { scheduled_at, delay, next_authorities } = old;
        let forced = if p < b.len() && b[p] == 1u8 {
            read_u64(b, p + 1)
        } else {
            None
        };
        Some(StoredPendingChange { scheduled_at, delay, next_authorities, forced })
    }
}

/// A stored pending change reads back from its bytes.
pub proof fn lemma_stored_change_round_trip(pc: StoredPendingChange)
    requires
        wire_stored_change(pc).len() <= usize::MAX,
    ensures
        read_stored_change(wire_stored_change(pc)) == Some(stored_change_view(pc)),
{
    let b = wire_stored_change(pc);
    let w1 = le64(pc.scheduled_at) + le64(pc.delay);
    let w2 = wire_authorities(pc.next_authorities@);
    let w3 = match pc.forced {
        None => seq![0u8],
        Some(m) => seq![1u8] + le64(m),
    };
    lemma_whole(b);
    lemma_split_at(w1 + w2, w3, b, 0);
    lemma_split_at(w1, w2, b, 0);
    lemma_split_at(le64(pc.scheduled_at), le64(pc.delay), b, 0);
    lemma_word_at(pc.scheduled_at, b, 0);
    lemma_word_at(pc.delay, b, 8);
    lemma_authorities_round_trip(pc.next_authorities@, b, 16);
    let p: int = 16 + w2.len() as int;
    assert(b[p] == w3[0]);
    if let Some(m) = pc.forced {
        lemma_split_at(seq![1u8], le64(m), b, p);
        lemma_word_at(m, b, p + 1);
    }
}

} // verus!
