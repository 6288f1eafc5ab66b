use vstd::prelude::*;
use crate::authority::{copy_authorities, pending_step, Event, Module, StoredChallengeSession};
use crate::commit::{
    ballot_outcome, commit_outcome, validate_ballots, validate_commit, Ballot, Block, VoterSet,
};
use crate::digest::{wire_signal, Signal, GRANDPA_ENGINE_ID};
use crate::primitives::{
    AuthorityId, AuthorityWeight, BlockHash, BlockNumber, Challenge, ChallengedVote, Commit, Error,
    Origin, CHALLENGE_SESSION_LENGTH, MAX_ANCESTRY,
};

verus! {

/// The ballots of challenged votes: each one's target and voter.
pub open spec fn vote_ballots(vs: Seq<ChallengedVote>) -> Seq<Ballot> {
    Seq::new(vs.len(), |i: int| (vs[i].vote.target_hash, vs[i].authority))
}

/// What the finality proof of a challenge validates to.
pub open spec fn proof_outcome(c: Challenge, vs: Seq<(AuthorityId, AuthorityWeight)>) -> Result<Option<Block>, Error> {
    commit_outcome(c.finalized_block_proof.commit, vs, c.finalized_block_proof.headers@)
}

/// What the rejecting set of a challenge validates to, read as votes for
/// the finalized block.
pub open spec fn rejecting_outcome(c: Challenge, vs: Seq<(AuthorityId, AuthorityWeight)>) -> Result<Option<Block>, Error> {
    ballot_outcome(c.finalized_block, vote_ballots(c.rejecting_set.votes@), vs, c.rejecting_set.headers@)
}

/// Whether a challenge stands. Both header sets must stay within the
/// ancestry limit, which is checked before anything is validated; then its
/// proof must give the finalized block as ghost, and its rejecting set must
/// validate to another ghost.
pub open spec fn challenge_check(c: Challenge, vs: Seq<(AuthorityId, AuthorityWeight)>) -> Result<(), Error> {
    if c.finalized_block_proof.headers@.len() > MAX_ANCESTRY || c.rejecting_set.headers@.len() > MAX_ANCESTRY {
        Err(Error::AncestryTooLarge)
    } else if proof_outcome(c, vs) != Ok::<Option<Block>, Error>(Some(c.finalized_block)) {
        Err(Error::InvalidFinalityProof)
    } else {
        match rejecting_outcome(c, vs) {
            Err(e) => Err(e),
            Ok(g) => if g == Some(c.finalized_block) {
                Err(Error::ChallengeDoesNotRefute)
            } else {
                Ok(())
            },
        }
    }
}

/// Authority `a` cast two different votes in `votes`.
pub open spec fn equivocates(votes: Seq<ChallengedVote>, a: AuthorityId) -> bool {
    exists|i: int, j: int|
        0 <= j < i < votes.len() && #[trigger] votes[i].authority == a && #[trigger] votes[j].authority == a
            && votes[i].vote != votes[j].vote
}

pub open spec fn strictly_ascending(s: Seq<AuthorityId>) -> bool {
    forall|i: int, j: int| 0 <= i < j < s.len() ==> s[i] < s[j]
}

/// The signers of a commit.
pub open spec fn signers(c: Commit) -> Seq<AuthorityId> {
    Seq::new(c.precommits@.len(), |i: int| c.precommits@[i].id)
}

/// The block a session disputes.
pub open spec fn session_target(s: StoredChallengeSession) -> Option<Block> {
    match s.prevote_challenge {
        Some(c) => Some(c.finalized_block),
        None => match s.precommit_challenge {
            Some(c) => Some(c.finalized_block),
            None => None,
        },
    }
}

/// The authorities a session accuses: the signers of the disputed proofs.
pub open spec fn session_accused(s: StoredChallengeSession) -> Seq<AuthorityId> {
    (match s.prevote_challenge {
        Some(c) => signers(c.finalized_block_proof.commit),
        None => Seq::empty(),
    }) + (match s.precommit_challenge {
        Some(c) => signers(c.finalized_block_proof.commit),
        None => Seq::empty(),
    })
}

/// Index of the first session at or after `i` that disputes block `b`.
pub open spec fn session_from(ss: Seq<StoredChallengeSession>, b: Block, i: int) -> Option<int>
    decreases ss.len() - i,
{
    if i < 0 || i >= ss.len() {
        None
    } else if session_target(ss[i]) == Some(b) {
        Some(i)
    } else {
        session_from(ss, b, i + 1)
    }
}

/// The session's answer window has closed at `block`.
pub open spec fn expired(s: StoredChallengeSession, block: BlockNumber) -> bool {
    s.scheduled_at + s.delay <= block
}

/// The first `k` sessions that are still open at `block`, in order.
pub open spec fn unexpired(ss: Seq<StoredChallengeSession>, block: BlockNumber, k: int) -> Seq<StoredChallengeSession>
    decreases k,
{
    if k <= 0 {
        Seq::empty()
    } else if expired(ss[k - 1], block) {
        unexpired(ss, block, k - 1)
    } else {
        unexpired(ss, block, k - 1).push(ss[k - 1])
    }
}

/// Authority `a` is accused by one of the first `k` sessions that expired at `block`.
pub open spec fn accused_by_expired(ss: Seq<StoredChallengeSession>, block: BlockNumber, a: AuthorityId, k: int) -> bool {
    exists|i: int| 0 <= i < k && expired(#[trigger] ss[i], block) && session_accused(ss[i]).contains(a)
}

/// The slashed list grew by exactly the authorities that `extra` holds,
/// none of them twice.
pub open spec fn slashed_grew(old_list: Seq<AuthorityId>, new_list: Seq<AuthorityId>, extra: spec_fn(AuthorityId) -> bool) -> bool {
    &&& forall|a: AuthorityId| #[trigger] new_list.contains(a) == (old_list.contains(a) || extra(a))
    &&& old_list.no_duplicates() ==> new_list.no_duplicates()
}

proof fn lemma_push_contains(s: Seq<AuthorityId>, x: AuthorityId, a: AuthorityId)
    ensures
        s.push(x).contains(a) == (s.contains(a) || a == x),
{
    if s.contains(a) {
        let j = choose|j: int| 0 <= j < s.len() && s[j] == a;
        assert(s.push(x)[j] == a);
    }
    if a == x {
        assert(s.push(x)[s.len() as int] == a);
    }
    if s.push(x).contains(a) {
        let j = choose|j: int| 0 <= j < s.push(x).len() && s.push(x)[j] == a;
        if j < s.len() {
            assert(s[j] == a);
        }
    }
}

/// The ballots of challenged votes.
pub fn ballots_of_votes(votes: &Vec<ChallengedVote>) -> (r: Vec<Ballot>)
    ensures
        r@ == vote_ballots(votes@),
{
    let mut r: Vec<Ballot> = Vec::new();
    let mut i: usize = 0;
    while i < votes.len()
        invariant
            i <= votes@.len(),
            r@ == vote_ballots(votes@).take(i as int),
        decreases votes@.len() - i,
    {
        r.push((votes[i].vote.target_hash, votes[i].authority));
        assert(r@ =~= vote_ballots(votes@).take(i + 1));
        i = i + 1;
    }
    assert(vote_ballots(votes@).take(votes@.len() as int) =~= vote_ballots(votes@));
    r
}

/// The signers of a commit.
pub fn commit_signers(c: &Commit) -> (r: Vec<AuthorityId>)
    ensures
        r@ == signers(*c),
{
    let mut r: Vec<AuthorityId> = Vec::new();
    let mut i: usize = 0;
    while i < c.precommits.len()
        invariant
            i <= c.precommits@.len(),
            r@ == signers(*c).take(i as int),
        decreases c.precommits@.len() - i,
    {
        r.push(c.precommits[i].id);
        assert(r@ =~= signers(*c).take(i + 1));
        i = i + 1;
    }
    assert(signers(*c).take(c.precommits@.len() as int) =~= signers(*c));
    r
}

/// Checks that a challenge's header sets are within the ancestry limit,
/// that its proof supports its finalized block and that its rejecting set
/// does not.
pub fn check_challenge(c: &Challenge, voters: &VoterSet) -> (r: Result<(), Error>)
    ensures
        r == challenge_check(*c, voters.voters@),
{
    let fb = c.finalized_block;
    if c.finalized_block_proof.headers.len() > MAX_ANCESTRY || c.rejecting_set.headers.len() > MAX_ANCESTRY {
        return Err(Error::AncestryTooLarge);
    }
    match validate_commit(&c.finalized_block_proof.commit, voters, &c.finalized_block_proof.headers) {
        Err(_) => {
            return Err(Error::InvalidFinalityProof);
        },
        Ok(v) => match v.ghost_block {
            None => {
                return Err(Error::InvalidFinalityProof);
            },
            Some(g) => {
                if g.0 != fb.0 || g.1 != fb.1 {
                    return Err(Error::InvalidFinalityProof);
                }
            },
        },
    }
    let ballots = ballots_of_votes(&c.rejecting_set.votes);
    match validate_ballots(fb, &ballots, voters, &c.rejecting_set.headers) {
        Err(e) => Err(e),
        Ok(v) => match v.ghost_block {
            Some(g) => if g.0 == fb.0 && g.1 == fb.1 {
                Err(Error::ChallengeDoesNotRefute)
            } else {
                Ok(())
            },
            None => Ok(()),
        },
    }
}

/// Adds `x` to a strictly ascending list, unless it is there.
fn insert_sorted(v: &mut Vec<AuthorityId>, x: AuthorityId)
    requires
        strictly_ascending(old(v)@),
    ensures
        strictly_ascending(final(v)@),
        forall|a: AuthorityId| #[trigger] final(v)@.contains(a) == (old(v)@.contains(a) || a == x),
{
    let mut i: usize = 0;
    while i < v.len() && v[i] < x
        invariant
            i <= v@.len(),
            forall|k: int| 0 <= k < i ==> v@[k] < x,
        decreases v@.len() - i,
    {
        i = i + 1;
    }
    if i < v.len() && v[i] == x {
        return;
    }
    let ghost s = v@;
    v.insert(i, x);
    assert(v@ == s.insert(i as int, x));
    assert forall|a: AuthorityId| #[trigger] v@.contains(a) == (s.contains(a) || a == x) by {
        if s.contains(a) {
            let j = choose|j: int| 0 <= j < s.len() && s[j] == a;
            if j < i {
                assert(v@[j] == a);
            } else {
                assert(v@[j + 1] == a);
            }
        }
        if a == x {
            assert(v@[i as int] == a);
        }
        if v@.contains(a) {
            let j = choose|j: int| 0 <= j < v@.len() && v@[j] == a;
            if j < i {
                assert(s[j] == a);
            } else if j > i {
                assert(s[j - 1] == a);
            }
        }
    }
    assert forall|p: int, q: int| 0 <= p < q < v@.len() implies v@[p] < v@[q] by {
        if i < s.len() {
            assert(s[i as int] > x);
        }
    }
}

/// The authorities that cast two different votes in `votes`, ascending.
pub fn equivocators(votes: &Vec<ChallengedVote>) -> (r: Vec<AuthorityId>)
    ensures
        strictly_ascending(r@),
        forall|a: AuthorityId| #[trigger] r@.contains(a) == equivocates(votes@, a),
{
    let mut r: Vec<AuthorityId> = Vec::new();
    let mut i: usize = 0;
    while i < votes.len()
        invariant
            i <= votes@.len(),
            strictly_ascending(r@),
            forall|a: AuthorityId| #[trigger] r@.contains(a) == equivocates(votes@.take(i as int), a),
        decreases votes@.len() - i,
    {
        let a = votes[i].authority;
        let mut found = false;
        let mut j: usize = 0;
        while j < i
            invariant
                j <= i < votes@.len(),
                a == votes@[i as int].authority,
                found == exists|k: int| 0 <= k < j && votes@[k].authority == a && votes@[k].vote != votes@[i as int].vote,
            decreases i - j,
        {
            if votes[j].authority == a && votes[j].vote != votes[i].vote {
                found = true;
            }
            j = j + 1;
        }
        let ghost t0 = votes@.take(i as int);
        let ghost t1 = votes@.take(i + 1);
        if found {
            insert_sorted(&mut r, a);
        }
        assert forall|b: AuthorityId| #[trigger] r@.contains(b) == equivocates(t1, b) by {
            if equivocates(t0, b) {
                let (p, q) = choose|p: int, q: int|
                    0 <= q < p < t0.len() && #[trigger] t0[p].authority == b && #[trigger] t0[q].authority == b
                        && t0[p].vote != t0[q].vote;
                assert(t1[p] == t0[p] && t1[q] == t0[q]);
            }
            if equivocates(t1, b) {
                let (p, q) = choose|p: int, q: int|
                    0 <= q < p < t1.len() && #[trigger] t1[p].authority == b && #[trigger] t1[q].authority == b
                        && t1[p].vote != t1[q].vote;
                if p < i {
                    assert(t0[p] == t1[p] && t0[q] == t1[q]);
                } else {
                    assert(b == a);
                    assert(votes@[q].authority == a && votes@[q].vote != votes@[i as int].vote);
                }
            }
            if found && b == a {
                let k = choose|k: int| 0 <= k < i && votes@[k].authority == a && votes@[k].vote != votes@[i as int].vote;
                assert(t1[i as int].authority == b && t1[k].authority == b);
            }
        }
        i = i + 1;
    }
    assert(votes@.take(votes@.len() as int) =~= votes@);
    r
}

/// From `m0` to `m1`, a session disputing `c` was opened at `height`, the
/// challenge was announced in the digest, and its accused were reported.
pub open spec fn opened(
    m0: Module,
    m1: Module,
    c: Challenge,
    prevote: bool,
    parent_hash: BlockHash,
    height: BlockNumber,
) -> bool {
    let ss = m1.challenge_sessions@;
    let s = ss.last();
    &&& ss.len() == m0.challenge_sessions@.len() + 1
    &&& forall|i: int| 0 <= i < m0.challenge_sessions@.len() ==> ss[i] == m0.challenge_sessions@[i]
    &&& s.scheduled_at == height && s.delay == CHALLENGE_SESSION_LENGTH && s.parent_hash == parent_hash
    &&& if prevote {
        s.prevote_challenge == Some(c) && s.precommit_challenge is None
    } else {
        s.precommit_challenge == Some(c) && s.prevote_challenge is None
    }
    &&& m1.logs@.len() == m0.logs@.len() + 1
    &&& forall|i: int| 0 <= i < m0.logs@.len() ==> m1.logs@[i] == m0.logs@[i]
    &&& m1.logs@.last().engine == GRANDPA_ENGINE_ID
    &&& m1.logs@.last().data@ == wire_signal(
        if prevote {
            Signal::PrevoteChallenge(c)
        } else {
            Signal::PrecommitChallenge(c)
        },
    )
    &&& m1.events@.len() == m0.events@.len() + 1
    &&& forall|i: int| 0 <= i < m0.events@.len() ==> m1.events@[i] == m0.events@[i]
    &&& (m1.events@.last() matches Event::NewChallenge(v) && v@ == signers(c.finalized_block_proof.commit))
    &&& m1.authorities == m0.authorities
    &&& m1.pending_change == m0.pending_change
    &&& m1.next_forced == m0.next_forced
    &&& m1.stalled == m0.stalled
    &&& m1.slashed == m0.slashed
}

/// `m1` differs from `m0` at most in the slashed list.
pub open spec fn only_slashed_changed(m0: Module, m1: Module) -> bool {
    &&& m1.authorities == m0.authorities
    &&& m1.pending_change == m0.pending_change
    &&& m1.next_forced == m0.next_forced
    &&& m1.stalled == m0.stalled
    &&& m1.challenge_sessions == m0.challenge_sessions
    &&& m1.logs == m0.logs
    &&& m1.events == m0.events
}

/// The state change of a signed dispute over precommits, from `m0` to `m1`.
pub open spec fn precommits_dispute_effect(
    m0: Module,
    m1: Module,
    c: Challenge,
    parent_hash: BlockHash,
    height: BlockNumber,
) -> bool {
    let chk = challenge_check(c, m0.authorities@);
    let round_s = c.rejecting_set.round;
    let round_b = c.finalized_block_proof.round;
    &&& chk is Err ==> m1 == m0
    &&& (chk is Ok && round_s == round_b) ==> slashed_grew(m0.slashed@, m1.slashed@,
        |a: AuthorityId| equivocates(c.rejecting_set.votes@, a)) && only_slashed_changed(m0, m1)
    &&& (chk is Ok && round_s > round_b) ==> opened(m0, m1, c, false, parent_hash, height)
    &&& (chk is Ok && round_s < round_b) ==> m1 == m0
}

/// The state change of a signed dispute over prevotes, from `m0` to `m1`.
pub open spec fn prevotes_dispute_effect(
    m0: Module,
    m1: Module,
    c: Challenge,
    parent_hash: BlockHash,
    height: BlockNumber,
) -> bool {
    &&& challenge_check(c, m0.authorities@) is Err ==> m1 == m0
    &&& challenge_check(c, m0.authorities@) is Ok ==> opened(m0, m1, c, true, parent_hash, height)
}

/// The result of a signed answer: no session, an invalid vote set, or
/// whether the votes rebut the dispute.
pub open spec fn answer_result(m0: Module, answer: Challenge) -> Result<bool, Error> {
    match session_from(m0.challenge_sessions@, answer.finalized_block, 0) {
        None => Err(Error::NoSuchChallenge),
        Some(_) => match rejecting_outcome(answer, m0.authorities@) {
            Err(e) => Err(e),
            Ok(g) => Ok(g == Some(answer.finalized_block)),
        },
    }
}

/// The state change of a signed answer, from `m0` to `m1`: the disputed
/// session closes, and unless rebutted its accused are slashed.
pub open spec fn answer_effect(m0: Module, m1: Module, answer: Challenge) -> bool {
    let k = session_from(m0.challenge_sessions@, answer.finalized_block, 0);
    let out = rejecting_outcome(answer, m0.authorities@);
    &&& (k is None || out is Err) ==> m1 == m0
    &&& (k is Some && out is Ok) ==> m1.challenge_sessions@ == m0.challenge_sessions@.remove(k->0)
        && m1.authorities == m0.authorities
        && m1.pending_change == m0.pending_change
        && m1.next_forced == m0.next_forced
        && m1.stalled == m0.stalled
        && m1.logs == m0.logs
    &&& (k is Some && out is Ok && out->Ok_0 == Some(answer.finalized_block)) ==> m1.slashed == m0.slashed
        && m1.events@.len() == m0.events@.len() + 1
        && (forall|i: int| 0 <= i < m0.events@.len() ==> m1.events@[i] == m0.events@[i])
        && (m1.events@.last() matches Event::ChallengeResponded(v)
            && v@ == session_accused(m0.challenge_sessions@[k->0]))
    &&& (k is Some && out is Ok && out->Ok_0 != Some(answer.finalized_block)) ==> m1.events == m0.events
        && slashed_grew(m0.slashed@, m1.slashed@,
            |a: AuthorityId| session_accused(m0.challenge_sessions@[k->0]).contains(a))
}

/// The accused of a session.
fn accused_of(s: &StoredChallengeSession) -> (r: Vec<AuthorityId>)
    ensures
        r@ == session_accused(*s),
{
    let mut r = match &s.prevote_challenge {
        Some(c) => commit_signers(&c.finalized_block_proof.commit),
        None => Vec::new(),
    };
    let mut more = match &s.precommit_challenge {
        Some(c) => commit_signers(&c.finalized_block_proof.commit),
        None => Vec::new(),
    };
    r.append(&mut more);
    r
}

impl Module {
    /// The current authorities as voters.
    pub fn voter_set(&self) -> (r: VoterSet)
        ensures
            r.voters@ == self.authorities@,
    {
        VoterSet::new(copy_authorities(&self.authorities))
    }

    /// Reports each of `ids` to slashing, each authority once.
    pub fn slash_all(&mut self, ids: &Vec<AuthorityId>)
        ensures
            slashed_grew(old(self).slashed@, final(self).slashed@, |a: AuthorityId| ids@.contains(a)),
            only_slashed_changed(*old(self), *final(self)),
    {
        let mut i: usize = 0;
        while i < ids.len()
            invariant
                i <= ids@.len(),
                slashed_grew(old(self).slashed@, self.slashed@, |a: AuthorityId| ids@.take(i as int).contains(a)),
                only_slashed_changed(*old(self), *self),
            decreases ids@.len() - i,
        {
            let ghost before = self.slashed@;
            self.slash(ids[i]);
            assert forall|a: AuthorityId| #[trigger] self.slashed@.contains(a) == (old(self).slashed@.contains(a)
                || ids@.take(i + 1).contains(a)) by {
                lemma_push_contains(before, ids@[i as int], a);
                lemma_push_contains(ids@.take(i as int), ids@[i as int], a);
                assert(ids@.take(i + 1) =~= ids@.take(i as int).push(ids@[i as int]));
            }
            i = i + 1;
        }
        assert(ids@.take(ids@.len() as int) =~= ids@);
    }

    fn open_session(&mut self, challenge: Challenge, prevote: bool, parent_hash: BlockHash, current_height: BlockNumber)
        ensures
            opened(*old(self), *final(self), challenge, prevote, parent_hash, current_height),
    {
        let accused = commit_signers(&challenge.finalized_block_proof.commit);
        let signal = if prevote {
            Signal::PrevoteChallenge(challenge)
        } else {
            Signal::PrecommitChallenge(challenge)
        };
        self.deposit_log(&signal);
        self.events.push(Event::NewChallenge(accused));
        match signal {
            Signal::PrevoteChallenge(c) => {
                self.challenge_sessions.push(
                    StoredChallengeSession {
                        scheduled_at: current_height,
                        delay: CHALLENGE_SESSION_LENGTH,
                        parent_hash,
                        prevote_challenge: Some(c),
                        precommit_challenge: None,
                    },
                );
            },
            Signal::PrecommitChallenge(c) => {
                self.challenge_sessions.push(
                    StoredChallengeSession {
                        scheduled_at: current_height,
                        delay: CHALLENGE_SESSION_LENGTH,
                        parent_hash,
                        prevote_challenge: None,
                        precommit_challenge: Some(c),
                    },
                );
            },
            _ => {},
        }
    }

    /// Disputes a finalization backed by precommits; the call must be signed.
    /// The proof must support the finalized block and the rejecting set must
    /// not. For a rejecting set of the proof's round, the authorities that
    /// voted twice differently in it are slashed and returned, ascending; for
    /// a later round, a session is opened for an answer.
    pub fn report_rejecting_precommits(
        &mut self,
        origin: Origin,
        challenge: Challenge,
        parent_hash: BlockHash,
        current_height: BlockNumber,
    ) -> (r: Result<Vec<AuthorityId>, Error>)
        ensures
            !(origin is Signed) ==> r == Err::<Vec<AuthorityId>, Error>(Error::BadOrigin) && *final(self) == *old(self),
            origin is Signed ==> precommits_dispute_effect(*old(self), *final(self), challenge, parent_hash, current_height),
            origin is Signed ==> ({
                let chk = challenge_check(challenge, old(self).authorities@);
                let round_s = challenge.rejecting_set.round;
                let round_b = challenge.finalized_block_proof.round;
                &&& chk is Err ==> r is Err && r->Err_0 == chk->Err_0
                &&& chk is Ok ==> r is Ok
                &&& (chk is Ok && round_s == round_b) ==> strictly_ascending(r->Ok_0@)
                    && (forall|a: AuthorityId| #[trigger] r->Ok_0@.contains(a) == equivocates(challenge.rejecting_set.votes@, a))
                &&& (chk is Ok && round_s != round_b) ==> r->Ok_0@.len() == 0
            }),
    {
        if !matches!(origin, Origin::Signed(_)) {
            return Err(Error::BadOrigin);
        }
        let voters = self.voter_set();
        match check_challenge(&challenge, &voters) {
            Err(e) => {
                return Err(e);
            },
            Ok(()) => {},
        }
        let round_s = challenge.rejecting_set.round;
        let round_b = challenge.finalized_block_proof.round;
        if round_s == round_b {
            let eqs = equivocators(&challenge.rejecting_set.votes);
            self.slash_all(&eqs);
            Ok(eqs)
        } else if round_s > round_b {
            self.open_session(challenge, false, parent_hash, current_height);
            Ok(Vec::new())
        } else {
            Ok(Vec::new())
        }
    }

    /// Disputes a finalization backed by prevotes; the call must be signed.
    /// When the proof supports the finalized block and the rejecting set does
    /// not, a session is opened for an answer.
    pub fn report_rejecting_prevotes(
        &mut self,
        origin: Origin,
        challenge: Challenge,
        parent_hash: BlockHash,
        current_height: BlockNumber,
    ) -> (r: Result<(), Error>)
        ensures
            !(origin is Signed) ==> r == Err::<(), Error>(Error::BadOrigin),
            origin is Signed ==> r == challenge_check(challenge, old(self).authorities@),
            r is Err ==> *final(self) == *old(self),
            origin is Signed ==> prevotes_dispute_effect(*old(self), *final(self), challenge, parent_hash, current_height),
    {
        if !matches!(origin, Origin::Signed(_)) {
            return Err(Error::BadOrigin);
        }
        let voters = self.voter_set();
        match check_challenge(&challenge, &voters) {
            Err(e) => Err(e),
            Ok(()) => {
                self.open_session(challenge, true, parent_hash, current_height);
                Ok(())
            },
        }
    }

    /// Index of the first session that disputes block `b`.
    pub fn find_session(&self, b: Block) -> (r: Option<usize>)
        ensures
            r matches Some(k) ==> session_from(self.challenge_sessions@, b, 0) == Some(k as int)
                && k < self.challenge_sessions@.len(),
            r is None ==> session_from(self.challenge_sessions@, b, 0) is None,
    {
        let mut k: usize = 0;
        while k < self.challenge_sessions.len()
            invariant
                k <= self.challenge_sessions@.len(),
                session_from(self.challenge_sessions@, b, 0) == session_from(self.challenge_sessions@, b, k as int),
            decreases self.challenge_sessions@.len() - k,
        {
            let s = &self.challenge_sessions[k];
            let target = match &s.prevote_challenge {
                Some(c) => Some(c.finalized_block),
                None => match &s.precommit_challenge {
                    Some(c) => Some(c.finalized_block),
                    None => None,
                },
            };
            match target {
                Some(t) => {
                    if t.0 == b.0 && t.1 == b.1 {
                        return Some(k);
                    }
                },
                None => {},
            }
            k = k + 1;
        }
        None
    }

    /// Answers, in a signed call, the first open session that disputes the
    /// answer's finalized block, with a vote set for that block. When the
    /// votes give that block as ghost, the dispute is rebutted: the session is
    /// closed and `true` returned. Otherwise the session's accused are
    /// slashed, the session is closed and `false` returned.
    pub fn report_prevotes_answer(&mut self, origin: Origin, answer: &Challenge) -> (r: Result<bool, Error>)
        ensures
            !(origin is Signed) ==> r == Err::<bool, Error>(Error::BadOrigin) && *final(self) == *old(self),
            origin is Signed ==> r == answer_result(*old(self), *answer),
            origin is Signed ==> answer_effect(*old(self), *final(self), *answer),
    {
        if !matches!(origin, Origin::Signed(_)) {
            return Err(Error::BadOrigin);
        }
        let b = answer.finalized_block;
        let k = match self.find_session(b) {
            None => {
                return Err(Error::NoSuchChallenge);
            },
            Some(k) => k,
        };
        let voters = self.voter_set();
        let ballots = ballots_of_votes(&answer.rejecting_set.votes);
        let ghost_block = match validate_ballots(b, &ballots, &voters, &answer.rejecting_set.headers) {
            Err(e) => {
                return Err(e);
            },
            Ok(v) => v.ghost_block,
        };
        let session = self.challenge_sessions.remove(k);
        let accused = accused_of(&session);
        let rebutted = match ghost_block {
            Some(g) => g.0 == b.0 && g.1 == b.1,
            None => false,
        };
        if rebutted {
            self.events.push(Event::ChallengeResponded(accused));
        } else {
            self.slash_all(&accused);
        }
        Ok(rebutted)
    }

    /// Closes the sessions whose answer window has passed at `block_number`,
    /// in the challenger's favour: their accused are slashed.
    pub fn expire_challenges(&mut self, block_number: BlockNumber)
        ensures
            final(self).challenge_sessions@ == unexpired(old(self).challenge_sessions@, block_number,
                old(self).challenge_sessions@.len() as int),
            slashed_grew(old(self).slashed@, final(self).slashed@,
                |a: AuthorityId| accused_by_expired(old(self).challenge_sessions@, block_number, a,
                    old(self).challenge_sessions@.len() as int)),
            final(self).authorities == old(self).authorities,
            final(self).pending_change == old(self).pending_change,
            final(self).next_forced == old(self).next_forced,
            final(self).stalled == old(self).stalled,
            final(self).logs == old(self).logs,
            final(self).events == old(self).events,
    {
        let ghost orig = self.challenge_sessions@;
        let n0 = self.challenge_sessions.len();
        let mut rest = self.challenge_sessions.split_off(0);
        assert(orig.subrange(0, orig.len() as int) =~= orig);
        let mut k: usize = 0;
        while rest.len() > 0
            invariant
                k <= orig.len(),
                orig.len() == n0,
                rest@ == orig.skip(k as int),
                self.challenge_sessions@ == unexpired(orig, block_number, k as int),
                slashed_grew(old(self).slashed@, self.slashed@,
                    |a: AuthorityId| accused_by_expired(orig, block_number, a, k as int)),
                self.authorities == old(self).authorities,
                self.pending_change == old(self).pending_change,
                self.next_forced == old(self).next_forced,
                self.stalled == old(self).stalled,
                self.logs == old(self).logs,
                self.events == old(self).events,
            decreases rest@.len(),
        {
            let s = rest.remove(0);
            assert(s == orig[k as int]);
            let ghost before = self.slashed@;
            let ghost kept = self.challenge_sessions@;
            let ends_after = s.delay > u64::MAX - s.scheduled_at || s.scheduled_at + s.delay > block_number;
            if ends_after {
                self.challenge_sessions.push(s);
                assert forall|a: AuthorityId| #[trigger] self.slashed@.contains(a) == (old(self).slashed@.contains(a)
                    || accused_by_expired(orig, block_number, a, k + 1)) by {
                    if accused_by_expired(orig, block_number, a, k + 1) {
                        let i = choose|i: int| 0 <= i < k + 1 && expired(#[trigger] orig[i], block_number)
                            && session_accused(orig[i]).contains(a);
                        assert(i < k);
                    }
                }
            } else {
                let accused = accused_of(&s);
                self.slash_all(&accused);
                assert forall|a: AuthorityId| #[trigger] self.slashed@.contains(a) == (old(self).slashed@.contains(a)
                    || accused_by_expired(orig, block_number, a, k + 1)) by {
                    if accused_by_expired(orig, block_number, a, k + 1) {
                        let i = choose|i: int| 0 <= i < k + 1 && expired(#[trigger] orig[i], block_number)
                            && session_accused(orig[i]).contains(a);
                        if i < k {
                            assert(accused_by_expired(orig, block_number, a, k as int));
                        }
                    }
                    if accused_by_expired(orig, block_number, a, k as int) {
                        let i = choose|i: int| 0 <= i < k && expired(#[trigger] orig[i], block_number)
                            && session_accused(orig[i]).contains(a);
                        assert(0 <= i < k + 1);
                    }
                    if session_accused(orig[k as int]).contains(a) {
                        assert(expired(orig[k as int], block_number));
                    }
                }
            }
            assert(rest@ =~= orig.skip(k + 1));
            k = k + 1;
        }
    }

    /// End-of-block processing: the pending change is signaled or applied as
    /// its heights come, and expired challenge sessions are closed.
    pub fn on_finalize(&mut self, block_number: BlockNumber)
        ensures
            pending_step(*old(self), *final(self), block_number),
            final(self).next_forced == old(self).next_forced,
            final(self).stalled == old(self).stalled,
            final(self).challenge_sessions@ == unexpired(old(self).challenge_sessions@, block_number,
                old(self).challenge_sessions@.len() as int),
            slashed_grew(old(self).slashed@, final(self).slashed@,
                |a: AuthorityId| accused_by_expired(old(self).challenge_sessions@, block_number, a,
                    old(self).challenge_sessions@.len() as int)),
    {
        self.apply_pending_change(block_number);
        self.expire_challenges(block_number);
    }
}

} // verus!
