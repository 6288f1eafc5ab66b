use vstd::prelude::*;
use crate::codec::{le64, wire_authorities};
use crate::digest::{encode_signal, wire_signal, DigestItem, Signal, GRANDPA_ENGINE_ID};
use crate::primitives::{
    AuthorityId, AuthorityWeight, BlockHash, BlockNumber, Challenge, Error, ScheduledChange,
};

verus! {

/// A change of the authority set waiting to be signaled and applied.
#[derive(Debug, PartialEq, Eq)]
pub struct StoredPendingChange {
    /// The block number this was scheduled at.
    pub scheduled_at: BlockNumber,
    /// The delay in blocks until it is applied.
    pub delay: BlockNumber,
    /// The next authority set.
    pub next_authorities: Vec<(AuthorityId, AuthorityWeight)>,
    /// For a forced change, the median last finalized block when it was signaled.
    pub forced: Option<BlockNumber>,
}

/// A dispute waiting for an answer until `scheduled_at + delay`.
#[derive(Debug, PartialEq, Eq)]
pub struct StoredChallengeSession {
    /// The block number this was opened at.
    pub scheduled_at: BlockNumber,
    /// The delay in blocks until it expires.
    pub delay: BlockNumber,
    pub parent_hash: BlockHash,
    pub prevote_challenge: Option<Challenge>,
    pub precommit_challenge: Option<Challenge>,
}

/// A dispute waiting for an answer; it has the shape of a session.
pub type StoredPendingChallenge = StoredChallengeSession;

/// What this module reports to observers.
#[derive(Debug, PartialEq, Eq)]
pub enum Event {
    /// A new authority set has been applied.
    NewAuthorities(Vec<(AuthorityId, AuthorityWeight)>),
    /// A dispute was opened against these authorities.
    NewChallenge(Vec<AuthorityId>),
    /// A dispute against these authorities was answered.
    ChallengeResponded(Vec<AuthorityId>),
}

/// The persistent state of the finality accountability module.
pub struct Module {
    /// The current authority set.
    pub authorities: Vec<(AuthorityId, AuthorityWeight)>,
    /// At most one change waiting to be applied.
    pub pending_change: Option<StoredPendingChange>,
    /// The height before which no forced change may be signaled.
    pub next_forced: Option<BlockNumber>,
    /// The wait and median reported by the stall detector, if stalled.
    pub stalled: Option<(BlockNumber, BlockNumber)>,
    /// Disputes waiting for an answer, oldest first.
    pub challenge_sessions: Vec<StoredChallengeSession>,
    /// Digest entries deposited by this module.
    pub logs: Vec<DigestItem>,
    /// Events deposited by this module.
    pub events: Vec<Event>,
    /// Authorities reported for slashing, each once.
    pub slashed: Vec<AuthorityId>,
}

/// The height from which a new forced change may be signaled after one
/// signaled at `h` with delay `d`: `h + 2 * d`, held at the largest height.
pub open spec fn cooldown_end(h: BlockNumber, d: BlockNumber) -> BlockNumber {
    if h + 2 * d <= u64::MAX {
        (h + 2 * d) as u64
    } else {
        u64::MAX
    }
}

/// Whether scheduling a change succeeds, given whether one is pending, the
/// forced-change cooldown, whether the new one is forced and the height.
pub open spec fn schedule_outcome(
    pending: bool,
    next_forced: Option<BlockNumber>,
    forced: bool,
    height: BlockNumber,
) -> Result<(), Error> {
    if pending {
        Err(Error::ChangeAlreadyPending)
    } else if forced && (next_forced matches Some(n) && n > height) {
        Err(Error::ForcedTooSoon)
    } else {
        Ok(())
    }
}

/// The cooldown after a successful scheduling.
pub open spec fn next_forced_after(
    next_forced: Option<BlockNumber>,
    forced: bool,
    height: BlockNumber,
    in_blocks: BlockNumber,
) -> Option<BlockNumber> {
    if forced {
        Some(cooldown_end(height, in_blocks))
    } else {
        next_forced
    }
}

/// The bytes of the signal that announces a pending change.
pub open spec fn wire_pending(pc: StoredPendingChange) -> Seq<u8> {
    match pc.forced {
        None => seq![0u8] + wire_authorities(pc.next_authorities@) + le64(pc.delay),
        Some(median) => seq![1u8] + le64(median) + wire_authorities(pc.next_authorities@) + le64(
            pc.delay,
        ),
    }
}

/// How finalizing `block_number` treats the pending change, from `m0` to `m1`:
/// at its scheduled height it is signaled in the digest, and `delay` blocks
/// later the authority set becomes its set and it is cleared.
pub open spec fn pending_step(m0: Module, m1: Module, block_number: BlockNumber) -> bool {
    let signaled = m0.pending_change matches Some(pc) && pc.scheduled_at == block_number;
    let applied = m0.pending_change matches Some(pc) && pc.scheduled_at + pc.delay == block_number;
    &&& signaled ==> m1.logs@.len() == m0.logs@.len() + 1
        && m1.logs@.last().engine == GRANDPA_ENGINE_ID
        && m1.logs@.last().data@ == wire_pending(m0.pending_change->0)
        && forall|i: int| 0 <= i < m0.logs@.len() ==> m1.logs@[i] == m0.logs@[i]
    &&& !signaled ==> m1.logs == m0.logs
    &&& applied ==> m1.authorities@ == m0.pending_change->0.next_authorities@
        && m1.pending_change is None
        && m1.events@.len() == m0.events@.len() + 1
        && (m1.events@.last() matches Event::NewAuthorities(v) && v@ == m1.authorities@)
    &&& !applied ==> m1.authorities == m0.authorities
        && m1.pending_change == m0.pending_change
        && m1.events == m0.events
}

/// A copy of a list of weighted authorities.
pub fn copy_authorities(v: &Vec<(AuthorityId, AuthorityWeight)>) -> (r: Vec<(AuthorityId, AuthorityWeight)>)
    ensures
        r@ == v@,
{
    let mut r: Vec<(AuthorityId, AuthorityWeight)> = Vec::new();
    let mut i: usize = 0;
    while i < v.len()
        invariant
            i <= v@.len(),
            r@ == v@.take(i as int),
        decreases v@.len() - i,
    {
        r.push(v[i]);
        assert(r@ =~= v@.take(i + 1));
        i = i + 1;
    }
    assert(v@.take(v@.len() as int) =~= v@);
    r
}

/// The two lists of weighted authorities are the same.
pub fn same_authorities(a: &Vec<(AuthorityId, AuthorityWeight)>, b: &Vec<(AuthorityId, AuthorityWeight)>) -> (r: bool)
    ensures
        r == (a@ == b@),
{
    if a.len() != b.len() {
        return false;
    }
    let mut i: usize = 0;
    while i < a.len()
        invariant
            a@.len() == b@.len(),
            i <= a@.len(),
            forall|j: int| 0 <= j < i ==> a@[j] == b@[j],
        decreases a@.len() - i,
    {
        if a[i].0 != b[i].0 || a[i].1 != b[i].1 {
            return false;
        }
        i = i + 1;
    }
    assert(a@ =~= b@);
    true
}

impl Module {
    /// The state at genesis: the given authority set and nothing else.
    pub fn new(authorities: Vec<(AuthorityId, AuthorityWeight)>) -> (r: Module)
        ensures
            r.authorities@ == authorities@,
            r.pending_change is None,
            r.next_forced is None,
            r.stalled is None,
            r.challenge_sessions@.len() == 0,
            r.logs@.len() == 0,
            r.events@.len() == 0,
            r.slashed@.len() == 0,
    {
        Module {
            authorities,
            pending_change: None,
            next_forced: None,
            stalled: None,
            challenge_sessions: Vec::new(),
            logs: Vec::new(),
            events: Vec::new(),
            slashed: Vec::new(),
        }
    }

    /// The current set of authorities, with their weights.
    pub fn grandpa_authorities(&self) -> (r: Vec<(AuthorityId, AuthorityWeight)>)
        ensures
            r@ == self.authorities@,
    {
        copy_authorities(&self.authorities)
    }

    /// Deposits a signal as this engine's digest entry.
    pub fn deposit_log(&mut self, signal: &Signal)
        ensures
            final(self).logs@.len() == old(self).logs@.len() + 1,
            forall|i: int| 0 <= i < old(self).logs@.len() ==> final(self).logs@[i] == old(self).logs@[i],
            final(self).logs@.last().engine == GRANDPA_ENGINE_ID,
            final(self).logs@.last().data@ == wire_signal(*signal),
            final(self).authorities == old(self).authorities,
            final(self).pending_change == old(self).pending_change,
            final(self).next_forced == old(self).next_forced,
            final(self).stalled == old(self).stalled,
            final(self).challenge_sessions == old(self).challenge_sessions,
            final(self).events == old(self).events,
            final(self).slashed == old(self).slashed,
    {
        let data = encode_signal(signal);
        self.logs.push(DigestItem { engine: GRANDPA_ENGINE_ID, data });
    }

    /// Schedules a change of the authorities at `current_height`.
    ///
    /// The change is signaled at the end of the current block and applied
    /// `in_blocks` after it. With `forced`, the current set is deemed offline
    /// and the value is the median last finalized block; no other forced
    /// change may then be signaled before `current_height + 2 * in_blocks`.
    /// Fails while any change is pending.
    pub fn schedule_change(
        &mut self,
        next_authorities: Vec<(AuthorityId, AuthorityWeight)>,
        in_blocks: BlockNumber,
        forced: Option<BlockNumber>,
        current_height: BlockNumber,
    ) -> (r: Result<(), Error>)
        ensures
            r == schedule_outcome(old(self).pending_change is Some, old(self).next_forced, forced is Some, current_height),
            r is Err ==> *final(self) == *old(self),
            r is Ok ==> (final(self).pending_change matches Some(pc) && pc.scheduled_at == current_height
                && pc.delay == in_blocks && pc.next_authorities@ == next_authorities@ && pc.forced == forced),
            r is Ok ==> final(self).next_forced == next_forced_after(old(self).next_forced, forced is Some, current_height, in_blocks),
            final(self).authorities == old(self).authorities,
            final(self).stalled == old(self).stalled,
            final(self).challenge_sessions == old(self).challenge_sessions,
            final(self).logs == old(self).logs,
            final(self).events == old(self).events,
            final(self).slashed == old(self).slashed,
    {
        if self.pending_change.is_some() {
            return Err(Error::ChangeAlreadyPending);
        }
        if forced.is_some() {
            if let Some(next) = self.next_forced {
                if next > current_height {
                    return Err(Error::ForcedTooSoon);
                }
            }
            let end = if in_blocks <= (u64::MAX - current_height) / 2 {
                current_height + 2 * in_blocks
            } else {
                u64::MAX
            };
            self.next_forced = Some(end);
        }
        self.pending_change = Some(
            StoredPendingChange { scheduled_at: current_height, delay: in_blocks, next_authorities, forced },
        );
        Ok(())
    }

    /// Signals the pending change when its block is finalized and applies it
    /// `delay` blocks later.
    pub fn apply_pending_change(&mut self, block_number: BlockNumber)
        ensures
            pending_step(*old(self), *final(self), block_number),
            final(self).next_forced == old(self).next_forced,
            final(self).stalled == old(self).stalled,
            final(self).challenge_sessions == old(self).challenge_sessions,
            final(self).slashed == old(self).slashed,
    {
        let (signal_now, apply_now) = match &self.pending_change {
            None => (false, false),
            Some(pc) => (
                block_number == pc.scheduled_at,
                pc.delay <= u64::MAX - pc.scheduled_at && pc.scheduled_at + pc.delay == block_number,
            ),
        };
        if signal_now {
            let pc = self.pending_change.as_ref().unwrap();
            let change = ScheduledChange { next_authorities: copy_authorities(&pc.next_authorities), delay: pc.delay };
            let signal = match pc.forced {
                Some(median) => Signal::ForcedAuthoritiesChange(median, change),
                None => Signal::AuthoritiesChange(change),
            };
            self.deposit_log(&signal);
            proof {
                let pc = old(self).pending_change->0;
                match pc.forced {
                    None => assert(wire_pending(pc) =~= wire_signal(signal)),
                    Some(m) => assert(wire_pending(pc) =~= wire_signal(signal)),
                }
            }
        }
        if apply_now {
            let pc = self.pending_change.take().unwrap();
            let event_set = copy_authorities(&pc.next_authorities);
            self.authorities = pc.next_authorities;
            self.events.push(Event::NewAuthorities(event_set));
        }
    }

    /// Records a finality stall, so that the next session change is forced.
    pub fn on_stalled(&mut self, further_wait: BlockNumber, median: BlockNumber)
        ensures
            final(self).stalled == Some((further_wait, median)),
            final(self).authorities == old(self).authorities,
            final(self).pending_change == old(self).pending_change,
            final(self).next_forced == old(self).next_forced,
            final(self).challenge_sessions == old(self).challenge_sessions,
            final(self).logs == old(self).logs,
            final(self).events == old(self).events,
            final(self).slashed == old(self).slashed,
    {
        self.stalled = Some((further_wait, median));
    }

    /// A new session: when the validator keys changed and differ from the
    /// current set, schedules a change to them, each with weight one. The
    /// change is instant, or forced with the recorded wait and median if a
    /// stall was recorded, which is then cleared.
    pub fn on_new_session(&mut self, changed: bool, validators: &Vec<AuthorityId>, current_height: BlockNumber)
        ensures
            ({
                let next = Seq::new(validators@.len(), |i: int| (validators@[i], 1u64));
                let acts = changed && next != old(self).authorities@;
                &&& !acts ==> *final(self) == *old(self)
                &&& acts && old(self).stalled is None ==> (
                    schedule_outcome(old(self).pending_change is Some, old(self).next_forced, false, current_height) is Ok
                    ==> (final(self).pending_change matches Some(pc) && pc.next_authorities@ == next
                        && pc.delay == 0 && pc.forced is None && pc.scheduled_at == current_height))
                &&& (acts && old(self).stalled is Some) ==> final(self).stalled is None && (
                    schedule_outcome(old(self).pending_change is Some, old(self).next_forced, true, current_height) is Ok
                    ==> (final(self).pending_change matches Some(pc) && pc.next_authorities@ == next
                        && pc.delay == old(self).stalled.unwrap().0 && pc.forced == Some(old(self).stalled.unwrap().1)
                        && pc.scheduled_at == current_height))
                &&& acts ==> (schedule_outcome(old(self).pending_change is Some, old(self).next_forced,
                    old(self).stalled is Some, current_height) is Err ==> final(self).pending_change == old(self).pending_change
                    && final(self).next_forced == old(self).next_forced)
                &&& acts ==> (schedule_outcome(old(self).pending_change is Some, old(self).next_forced,
                    old(self).stalled is Some, current_height) is Ok ==> final(self).next_forced == next_forced_after(
                    old(self).next_forced, old(self).stalled is Some, current_height,
                    if old(self).stalled is Some { old(self).stalled.unwrap().0 } else { 0 }))
                &&& acts ==> final(self).stalled is None
            }),
            final(self).authorities == old(self).authorities,
            final(self).challenge_sessions == old(self).challenge_sessions,
            final(self).logs == old(self).logs,
            final(self).events == old(self).events,
            final(self).slashed == old(self).slashed,
    {
        if !changed {
            return;
        }
        let mut next: Vec<(AuthorityId, AuthorityWeight)> = Vec::new();
        let mut i: usize = 0;
        while i < validators.len()
            invariant
                i <= validators@.len(),
                next@ == Seq::new(i as nat, |j: int| (validators@[j], 1u64)),
            decreases validators@.len() - i,
        {
            next.push((validators[i], 1u64));
            assert(next@ =~= Seq::new((i + 1) as nat, |j: int| (validators@[j], 1u64)));
            i = i + 1;
        }
        if same_authorities(&next, &self.authorities) {
            return;
        }
        match self.stalled.take() {
            Some((further_wait, median)) => {
                let _ = self.schedule_change(next, further_wait, Some(median), current_height);
            },
            None => {
                let _ = self.schedule_change(next, 0, None, current_height);
            },
        }
    }

    /// A validator was disabled: the authority set is left as it is.
    pub fn on_disabled(&mut self, _index: usize)
        ensures
            *final(self) == *old(self),
    {
    }
}

/// A second change cannot be scheduled while one is pending, whatever its
/// delay, whether it is forced, and at any height.
pub proof fn lemma_change_already_pending(next_forced: Option<BlockNumber>, forced: bool, height: BlockNumber)
    ensures
        schedule_outcome(true, next_forced, forced, height) == Err::<(), Error>(Error::ChangeAlreadyPending),
{
}

/// After a forced change with delay `d` is scheduled at `h` (and applied, so
/// that none is pending), a forced change at `h2` fails as too soon exactly
/// when `h2 < h + 2 * d`.
pub proof fn lemma_forced_cooldown(next_forced: Option<BlockNumber>, h: BlockNumber, d: BlockNumber, h2: BlockNumber)
    requires
        schedule_outcome(false, next_forced, true, h) is Ok,
        h + 2 * d <= u64::MAX,
    ensures
        schedule_outcome(false, next_forced_after(next_forced, true, h, d), true, h2) == if h2 < h + 2 * d {
            Err::<(), Error>(Error::ForcedTooSoon)
        } else {
            Ok(())
        },
{
}

/// A forced change scheduled at `h` with delay `d` holds the next forced
/// change off until exactly `h + 2 * d`, when that height exists.
pub proof fn lemma_forced_cooldown_end(next_forced: Option<BlockNumber>, h: BlockNumber, d: BlockNumber)
    requires
        h + 2 * d <= u64::MAX,
    ensures
        next_forced_after(next_forced, true, h, d) == Some((h + 2 * d) as u64),
{
}

} // verus!
