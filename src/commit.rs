use vstd::prelude::*;
use crate::primitives::{
    AuthorityId, AuthorityWeight, BlockHash, BlockNumber, Commit, Error, Header, SignedPrecommit,
    MAX_ANCESTRY,
};

verus! {

/// A block named by hash and height.
pub type Block = (BlockHash, BlockNumber);

/// A vote reduced to what weighing needs: its target hash and its voter.
pub type Ballot = (BlockHash, AuthorityId);

/// Index of the first header in `hs` at or after `i` whose hash is `h`.
pub open spec fn find_from(hs: Seq<Header>, h: BlockHash, i: int) -> Option<int>
    decreases hs.len() - i,
{
    if i < 0 || i >= hs.len() {
        None
    } else if hs[i].hash == h {
        Some(i)
    } else {
        find_from(hs, h, i + 1)
    }
}

/// The blocks from `h` down to `base` along parent links of `hs`, `h` first
/// and `base` last, taking at most `fuel` parent steps.
pub open spec fn route(hs: Seq<Header>, h: BlockHash, base: Block, fuel: nat) -> Option<Seq<Block>>
    decreases fuel,
{
    if h == base.0 {
        Some(seq![base])
    } else if fuel == 0 {
        None
    } else {
        match find_from(hs, h, 0) {
            None => None,
            Some(k) => match route(hs, hs[k].parent_hash, base, (fuel - 1) as nat) {
                None => None,
                Some(r) => Some(seq![(h, hs[k].number)] + r),
            },
        }
    }
}

/// The route of `h` to `base` through the headers: a block that no header
/// chain links to `base` has none.
pub open spec fn ancestry(hs: Seq<Header>, h: BlockHash, base: Block) -> Option<Seq<Block>> {
    route(hs, h, base, hs.len())
}

/// Weight of the first entry for `id` at or after `i`; zero for a non-voter.
pub open spec fn weight_from(vs: Seq<(AuthorityId, AuthorityWeight)>, id: AuthorityId, i: int) -> int
    decreases vs.len() - i,
{
    if i < 0 || i >= vs.len() {
        0
    } else if vs[i].0 == id {
        vs[i].1 as int
    } else {
        weight_from(vs, id, i + 1)
    }
}

/// Weight of `id` in the voter list.
pub open spec fn voter_weight(vs: Seq<(AuthorityId, AuthorityWeight)>, id: AuthorityId) -> int {
    weight_from(vs, id, 0)
}

/// Sum of the weights of the first `n` voter entries.
pub open spec fn total_weight(vs: Seq<(AuthorityId, AuthorityWeight)>, n: int) -> int
    decreases n,
{
    if n <= 0 {
        0
    } else {
        total_weight(vs, n - 1) + vs[n - 1].1 as int
    }
}

/// Precommit `i` is the first one by its voter.
pub open spec fn first_by_voter(pcs: Seq<Ballot>, i: int) -> bool {
    forall|j: int| 0 <= j < i ==> pcs[j].1 != pcs[i].1
}

/// Weight that precommit `i` brings: its voter's weight, counted once per voter.
pub open spec fn vote_weight(
    vs: Seq<(AuthorityId, AuthorityWeight)>,
    pcs: Seq<Ballot>,
    i: int,
) -> int {
    if first_by_voter(pcs, i) {
        voter_weight(vs, pcs[i].1)
    } else {
        0
    }
}

/// Some precommit by the voter of precommit `i` has block `b` on its route.
pub open spec fn voter_reaches(pcs: Seq<Ballot>, routes: Seq<Seq<Block>>, i: int, b: Block) -> bool {
    exists|j: int| 0 <= j < pcs.len() && pcs[j].1 == pcs[i].1 && (#[trigger] routes[j]).contains(b)
}

/// Weight of the voters among the first `n` precommits that have block `b`
/// on the route of any of their precommits, each voter counted once.
pub open spec fn support(
    vs: Seq<(AuthorityId, AuthorityWeight)>,
    pcs: Seq<Ballot>,
    routes: Seq<Seq<Block>>,
    b: Block,
    n: int,
) -> int
    decreases n,
{
    if n <= 0 {
        0
    } else {
        support(vs, pcs, routes, b, n - 1) + if voter_reaches(pcs, routes, n - 1, b) {
            vote_weight(vs, pcs, n - 1)
        } else {
            0
        }
    }
}

/// The first `n` routes, one after another.
pub open spec fn concat(routes: Seq<Seq<Block>>, n: int) -> Seq<Block>
    decreases n,
{
    if n <= 0 {
        Seq::empty()
    } else {
        concat(routes, n - 1) + routes[n - 1]
    }
}

/// Weight `w` is at least two thirds of `total`.
/// A positive total weight is needed: with none, no block has a supermajority.
pub open spec fn supermajority(w: int, total: int) -> bool {
    total > 0 && 3 * w >= 2 * total
}

/// Block `c` ranks above block `p`: it is higher, or as high with a lower hash.
pub open spec fn ranks_above(c: Block, p: Block) -> bool {
    c.1 > p.1 || (c.1 == p.1 && c.0 < p.0)
}

/// Among the first `k` candidates, the one with supermajority support that
/// ranks above all others: the highest, and of equal heights the one with
/// the lowest hash. Which candidate that is does not depend on their order.
pub open spec fn best(
    vs: Seq<(AuthorityId, AuthorityWeight)>,
    pcs: Seq<Ballot>,
    routes: Seq<Seq<Block>>,
    cands: Seq<Block>,
    k: int,
) -> Option<Block>
    decreases k,
{
    if k <= 0 {
        None
    } else {
        let prev = best(vs, pcs, routes, cands, k - 1);
        let c = cands[k - 1];
        if supermajority(support(vs, pcs, routes, c, pcs.len() as int), total_weight(vs, vs.len() as int))
            && (prev is None || ranks_above(c, prev.unwrap())) {
            Some(c)
        } else {
            prev
        }
    }
}

/// The ghost of precommits whose routes are `routes`: the highest block that
/// precommits of at least two thirds of the voter weight have at or above them.
pub open spec fn ghost_of(
    vs: Seq<(AuthorityId, AuthorityWeight)>,
    pcs: Seq<Ballot>,
    routes: Seq<Seq<Block>>,
) -> Option<Block> {
    let cands = concat(routes, routes.len() as int);
    best(vs, pcs, routes, cands, cands.len() as int)
}

/// Every precommit target links to the commit target.
pub open spec fn all_linked(hs: Seq<Header>, pcs: Seq<Ballot>, base: Block) -> bool {
    forall|i: int| 0 <= i < pcs.len() ==> (#[trigger] ancestry(hs, pcs[i].0, base)) is Some
}

/// The routes of all precommits to the commit target.
pub open spec fn routes_of(hs: Seq<Header>, pcs: Seq<Ballot>, base: Block) -> Seq<Seq<Block>> {
    Seq::new(pcs.len(), |i: int| ancestry(hs, pcs[i].0, base)->0)
}

/// The ballots of precommits: each one's target and voter.
pub open spec fn precommit_ballots(pcs: Seq<SignedPrecommit>) -> Seq<Ballot> {
    Seq::new(pcs.len(), |i: int| (pcs[i].precommit.target_hash, pcs[i].id))
}

/// What validating ballots for `base` against voters and headers yields.
pub open spec fn ballot_outcome(
    base: Block,
    pcs: Seq<Ballot>,
    vs: Seq<(AuthorityId, AuthorityWeight)>,
    hs: Seq<Header>,
) -> Result<Option<Block>, Error> {
    if hs.len() > MAX_ANCESTRY {
        Err(Error::AncestryTooLarge)
    } else if !all_linked(hs, pcs, base) {
        Err(Error::InvalidAncestry)
    } else {
        Ok(ghost_of(vs, pcs, routes_of(hs, pcs, base)))
    }
}

/// What validating a commit against voters and headers yields.
pub open spec fn commit_outcome(
    c: Commit,
    vs: Seq<(AuthorityId, AuthorityWeight)>,
    hs: Seq<Header>,
) -> Result<Option<Block>, Error> {
    ballot_outcome((c.target_hash, c.target_number), precommit_ballots(c.precommits@), vs, hs)
}

/// The authority set read as weighted voters.
pub struct VoterSet {
    pub voters: Vec<(AuthorityId, AuthorityWeight)>,
}

impl VoterSet {
    pub fn new(voters: Vec<(AuthorityId, AuthorityWeight)>) -> (r: VoterSet)
        ensures
            r.voters@ == voters@,
    {
        VoterSet { voters }
    }

    /// Sum of all weights.
    pub fn total_weight(&self) -> (r: u128)
        ensures
            r == total_weight(self.voters@, self.voters@.len() as int),
    {
        let mut acc: u128 = 0;
        let mut i: usize = 0;
        while i < self.voters.len()
            invariant
                i <= self.voters@.len(),
                acc == total_weight(self.voters@, i as int),
                acc <= i * (u64::MAX as int),
            decreases self.voters@.len() - i,
        {
            let w = self.voters[i].1;
            proof {
                lemma_sum_step(acc as int, i as int, w as int);
            }
            acc = acc + w as u128;
            i = i + 1;
        }
        acc
    }

    /// Weight of `id`; zero for a non-voter.
    pub fn weight(&self, id: AuthorityId) -> (r: u64)
        ensures
            r == voter_weight(self.voters@, id),
    {
        let mut i: usize = 0;
        while i < self.voters.len()
            invariant
                i <= self.voters@.len(),
                weight_from(self.voters@, id, 0) == weight_from(self.voters@, id, i as int),
            decreases self.voters@.len() - i,
        {
            if self.voters[i].0 == id {
                return self.voters[i].1;
            }
            i = i + 1;
        }
        0
    }
}

/// A partial sum of `i` terms, each at most `u64::MAX`, takes one more
/// without leaving `u128`.
proof fn lemma_sum_step(acc: int, i: int, w: int)
    requires
        0 <= i <= u64::MAX as int,
        0 <= acc <= i * u64::MAX as int,
        0 <= w <= u64::MAX as int,
    ensures
        acc + w <= (i + 1) * u64::MAX as int,
        acc + w <= u128::MAX as int,
{
    assert((i + 1) * u64::MAX as int <= 0x1_0000_0000_0000_0000 * (u64::MAX as int))
        by (nonlinear_arith)
        requires
            0 <= i <= u64::MAX as int,
    ;
}

/// Index of the first header with hash `h`.
fn find_header(hs: &Vec<Header>, h: BlockHash) -> (r: Option<usize>)
    ensures
        r matches Some(k) ==> find_from(hs@, h, 0) == Some(k as int) && k < hs@.len(),
        r is None ==> find_from(hs@, h, 0) is None,
{
    let mut i: usize = 0;
    while i < hs.len()
        invariant
            i <= hs@.len(),
            find_from(hs@, h, 0) == find_from(hs@, h, i as int),
        decreases hs@.len() - i,
    {
        if hs[i].hash == h {
            return Some(i);
        }
        i = i + 1;
    }
    None
}

/// The route from `h` down to `base` through `hs`.
pub fn ancestry_route(hs: &Vec<Header>, h: BlockHash, base: Block) -> (r: Option<Vec<Block>>)
    ensures
        r matches Some(v) ==> ancestry(hs@, h, base) == Some(v@),
        r is None ==> ancestry(hs@, h, base) is None,
{
    let mut acc: Vec<Block> = Vec::new();
    let mut cur = h;
    let mut fuel: usize = hs.len();
    while cur != base.0
        invariant
            ancestry(hs@, h, base) == (match route(hs@, cur, base, fuel as nat) {
                None => None,
                Some(r) => Some(acc@ + r),
            }),
        decreases fuel,
    {
        if fuel == 0 {
            return None;
        }
        match find_header(hs, cur) {
            None => {
                return None;
            },
            Some(k) => {
                let ghost old_acc = acc@;
                let ghost rest = route(hs@, hs@[k as int].parent_hash, base, (fuel - 1) as nat);
                acc.push((cur, hs[k].number));
                proof {
                    if let Some(r) = rest {
                        assert(old_acc + (seq![(cur, hs@[k as int].number)] + r) =~= acc@ + r);
                    }
                }
                cur = hs[k].parent_hash;
                fuel = fuel - 1;
            },
        }
    }
    let ghost old_acc = acc@;
    acc.push(base);
    assert(old_acc + seq![base] =~= acc@);
    Some(acc)
}

/// `concat(rs, i)` is a prefix of `concat(rs, m)` for `i <= m`.
proof fn lemma_concat_prefix(rs: Seq<Seq<Block>>, i: int, m: int)
    requires
        0 <= i <= m <= rs.len(),
    ensures
        concat(rs, i).len() <= concat(rs, m).len(),
        forall|p: int| 0 <= p < concat(rs, i).len() ==> concat(rs, m)[p] == concat(rs, i)[p],
    decreases m,
{
    if m > i {
        lemma_concat_prefix(rs, i, m - 1);
    }
}

/// Position `j` of route `i` stands at `concat(rs, i).len() + j` of all routes.
proof fn lemma_concat_index(rs: Seq<Seq<Block>>, i: int, j: int)
    requires
        0 <= i < rs.len(),
        0 <= j < rs[i].len(),
    ensures
        concat(rs, i).len() + j < concat(rs, rs.len() as int).len(),
        concat(rs, rs.len() as int)[concat(rs, i).len() + j] == rs[i][j],
        concat(rs, i + 1).len() == concat(rs, i).len() + rs[i].len(),
{
    lemma_concat_prefix(rs, i + 1, rs.len() as int);
    assert(concat(rs, i + 1)[concat(rs, i).len() + j] == rs[i][j]);
}

/// Two thirds of `t`, rounded up, is `t - t / 3`.
proof fn lemma_two_thirds(s: int, t: int)
    requires
        0 <= s,
        0 <= t,
    ensures
        supermajority(s, t) == (t > 0 && s >= t - t / 3),
{
    let q = t / 3;
    let r = t % 3;
    assert(t == 3 * q + r && 0 <= r < 3) by {
        vstd::arithmetic::div_mod::lemma_fundamental_div_mod(t, 3);
    }
}

/// Block `b` is one of `route`.
fn route_contains(route: &Vec<Block>, b: Block) -> (r: bool)
    ensures
        r == route@.contains(b),
{
    let mut i: usize = 0;
    while i < route.len()
        invariant
            i <= route@.len(),
            forall|j: int| 0 <= j < i ==> route@[j] != b,
        decreases route@.len() - i,
    {
        if route[i].0 == b.0 && route[i].1 == b.1 {
            assert(route@[i as int] == b);
            return true;
        }
        i = i + 1;
    }
    false
}

/// Some precommit by the voter of precommit `i` has block `b` on its route.
fn voter_reaches_block(pcs: &Vec<Ballot>, routes: &Vec<Vec<Block>>, i: usize, b: Block) -> (r: bool)
    requires
        routes@.len() == pcs@.len(),
        i < pcs@.len(),
    ensures
        r == exists|j: int| 0 <= j < pcs@.len() && pcs@[j].1 == pcs@[i as int].1 && (#[trigger] routes@[j])@.contains(b),
{
    let mut j: usize = 0;
    while j < pcs.len()
        invariant
            routes@.len() == pcs@.len(),
            i < pcs@.len(),
            j <= pcs@.len(),
            forall|k: int| 0 <= k < j ==> !(pcs@[k].1 == pcs@[i as int].1 && (#[trigger] routes@[k])@.contains(b)),
        decreases pcs@.len() - j,
    {
        if pcs[j].1 == pcs[i].1 && route_contains(&routes[j], b) {
            return true;
        }
        j = j + 1;
    }
    false
}

/// Precommit `i` is the first one by its voter.
fn is_first_by_voter(pcs: &Vec<Ballot>, i: usize) -> (r: bool)
    requires
        i < pcs@.len(),
    ensures
        r == first_by_voter(pcs@, i as int),
{
    let mut j: usize = 0;
    while j < i
        invariant
            j <= i < pcs@.len(),
            forall|k: int| 0 <= k < j ==> pcs@[k].1 != pcs@[i as int].1,
        decreases i - j,
    {
        if pcs[j].1 == pcs[i].1 {
            return false;
        }
        j = j + 1;
    }
    true
}

/// What checking a commit found.
pub struct CommitValidation {
    pub ghost_block: Option<Block>,
}

impl CommitValidation {
    /// The highest block with supermajority support, if any.
    pub fn ghost_block(&self) -> (r: Option<Block>)
        ensures
            r == self.ghost_block,
    {
        self.ghost_block
    }
}

/// Checks ballots for `base` against a voter set and the headers that link
/// their targets to `base`, and computes their ghost.
pub fn validate_ballots(base: Block, pcs: &Vec<Ballot>, voters: &VoterSet, chain: &Vec<Header>) -> (r: Result<CommitValidation, Error>)
    ensures
        r matches Ok(v) ==> ballot_outcome(base, pcs@, voters.voters@, chain@) == Ok::<Option<Block>, Error>(v.ghost_block),
        r matches Err(e) ==> ballot_outcome(base, pcs@, voters.voters@, chain@) == Err::<Option<Block>, Error>(e),
{
    if chain.len() > MAX_ANCESTRY {
        return Err(Error::AncestryTooLarge);
    }
    let n = pcs.len();

    let mut routes: Vec<Vec<Block>> = Vec::new();
    let ghost mut rs: Seq<Seq<Block>> = Seq::empty();
    let mut i: usize = 0;
    while i < n
        invariant
            n == pcs@.len(),
            chain@.len() <= MAX_ANCESTRY,
            i <= n,
            routes@.len() == i,
            rs.len() == i,
            forall|j: int| 0 <= j < i ==> #[trigger] rs[j] == routes@[j]@,
            forall|j: int| 0 <= j < i ==> ancestry(chain@, pcs@[j].0, base) == Some(#[trigger] rs[j]),
        decreases n - i,
    {
        match ancestry_route(chain, pcs[i].0, base) {
            None => {
                assert(ancestry(chain@, pcs@[i as int].0, base) is None);
                assert(!all_linked(chain@, pcs@, base));
                return Err(Error::InvalidAncestry);
            },
            Some(v) => {
                proof {
                    rs = rs.push(v@);
                }
                routes.push(v);
            },
        }
        i = i + 1;
    }
    assert forall|j: int| 0 <= j < pcs@.len() implies (#[trigger] ancestry(chain@, pcs@[j].0, base)) is Some by {
        assert(ancestry(chain@, pcs@[j].0, base) == Some(rs[j]));
    }
    assert(all_linked(chain@, pcs@, base));
    assert(rs =~= routes_of(chain@, pcs@, base));

    let mut ws: Vec<u64> = Vec::new();
    let mut i: usize = 0;
    while i < n
        invariant
            n == pcs@.len(),
            i <= n,
            ws@.len() == i,
            forall|j: int| 0 <= j < i ==> ws@[j] == vote_weight(voters.voters@, pcs@, j),
        decreases n - i,
    {
        let w = if is_first_by_voter(pcs, i) {
            voters.weight(pcs[i].1)
        } else {
            0
        };
        ws.push(w);
        i = i + 1;
    }

    let total = voters.total_weight();
    let ghost vs = voters.voters@;
    let ghost cands = concat(rs, rs.len() as int);
    let mut found: Option<Block> = None;
    let mut i: usize = 0;
    while i < n
        invariant
            n == pcs@.len(),
            i <= n,
            routes@.len() == n,
            rs.len() == n,
            ws@.len() == n,
            forall|j: int| 0 <= j < n ==> #[trigger] rs[j] == routes@[j]@,
            forall|j: int| 0 <= j < n ==> ws@[j] == vote_weight(vs, pcs@, j),
            vs == voters.voters@,
            total == total_weight(vs, vs.len() as int),
            cands == concat(rs, rs.len() as int),
            found == best(vs, pcs@, rs, cands, concat(rs, i as int).len() as int),
        decreases n - i,
    {
        let route = &routes[i];
        let mut j: usize = 0;
        while j < route.len()
            invariant
                n == pcs@.len(),
                i < n,
                j <= route@.len(),
                routes@.len() == n,
                rs.len() == n,
                ws@.len() == n,
                route@ == rs[i as int],
                forall|j: int| 0 <= j < n ==> #[trigger] rs[j] == routes@[j]@,
                forall|j: int| 0 <= j < n ==> ws@[j] == vote_weight(vs, pcs@, j),
                vs == voters.voters@,
                total == total_weight(vs, vs.len() as int),
                cands == concat(rs, rs.len() as int),
                found == best(vs, pcs@, rs, cands, concat(rs, i as int).len() + j),
            decreases route@.len() - j,
        {
            let c = route[j];
            let mut s: u128 = 0;
            let mut k: usize = 0;
            while k < n
                invariant
                    n == pcs@.len(),
                    k <= n,
                    routes@.len() == n,
                    rs.len() == n,
                    ws@.len() == n,
                    forall|j: int| 0 <= j < n ==> #[trigger] rs[j] == routes@[j]@,
                    forall|j: int| 0 <= j < n ==> ws@[j] == vote_weight(vs, pcs@, j),
                    s == support(vs, pcs@, rs, c, k as int),
                    s <= k * (u64::MAX as int),
                decreases n - k,
            {
                let reaches = voter_reaches_block(pcs, &routes, k, c);
                proof {
                    if reaches {
                        let q = choose|q: int| 0 <= q < pcs@.len() && pcs@[q].1 == pcs@[k as int].1 && (#[trigger] routes@[q])@.contains(c);
                        assert(rs[q] == routes@[q]@);
                        assert(voter_reaches(pcs@, rs, k as int, c));
                    } else {
                        assert forall|q: int| 0 <= q < pcs@.len() && pcs@[q].1 == pcs@[k as int].1 implies !(#[trigger] rs[q]).contains(c) by {
                            assert(rs[q] == routes@[q]@);
                        }
                    }
                }
                let w: u64 = if reaches {
                    ws[k]
                } else {
                    0
                };
                proof {
                    lemma_sum_step(s as int, k as int, w as int);
                }
                s = s + w as u128;
                k = k + 1;
            }
            proof {
                lemma_two_thirds(s as int, total as int);
                lemma_concat_index(rs, i as int, j as int);
            }
            let better = match found {
                None => true,
                Some(b) => c.1 > b.1 || (c.1 == b.1 && c.0 < b.0),
            };
            if total > 0 && s >= total - total / 3 && better {
                found = Some(c);
            }
            j = j + 1;
        }
        proof {
            lemma_concat_prefix(rs, i as int, i as int + 1);
        }
        i = i + 1;
    }
    Ok(CommitValidation { ghost_block: found })
}

/// The ballots of precommits.
pub fn ballots_of_precommits(pcs: &Vec<SignedPrecommit>) -> (r: Vec<Ballot>)
    ensures
        r@ == precommit_ballots(pcs@),
{
    let mut r: Vec<Ballot> = Vec::new();
    let mut i: usize = 0;
    while i < pcs.len()
        invariant
            i <= pcs@.len(),
            r@ == precommit_ballots(pcs@).take(i as int),
        decreases pcs@.len() - i,
    {
        r.push((pcs[i].precommit.target_hash, pcs[i].id));
        assert(r@ =~= precommit_ballots(pcs@).take(i + 1));
        i = i + 1;
    }
    assert(precommit_ballots(pcs@).take(pcs@.len() as int) =~= precommit_ballots(pcs@));
    r
}

/// Checks a commit against a voter set and the headers that link its
/// precommits to its target, and computes the ghost of its precommits.
pub fn validate_commit(commit: &Commit, voters: &VoterSet, chain: &Vec<Header>) -> (r: Result<CommitValidation, Error>)
    ensures
        r matches Ok(v) ==> commit_outcome(*commit, voters.voters@, chain@) == Ok::<Option<Block>, Error>(v.ghost_block),
        r matches Err(e) ==> commit_outcome(*commit, voters.voters@, chain@) == Err::<Option<Block>, Error>(e),
{
    let ballots = ballots_of_precommits(&commit.precommits);
    validate_ballots((commit.target_hash, commit.target_number), &ballots, voters, chain)
}

/// Sum of the counted weights of the first `n` ballots: each voter's
/// weight once.
pub open spec fn ballot_weight(vs: Seq<(AuthorityId, AuthorityWeight)>, pcs: Seq<Ballot>, n: int) -> int
    decreases n,
{
    if n <= 0 {
        0
    } else {
        ballot_weight(vs, pcs, n - 1) + vote_weight(vs, pcs, n - 1)
    }
}

proof fn lemma_support_single(
    vs: Seq<(AuthorityId, AuthorityWeight)>,
    pcs: Seq<Ballot>,
    routes: Seq<Seq<Block>>,
    b: Block,
    n: int,
)
    requires
        0 <= n <= pcs.len(),
        routes.len() == pcs.len(),
        forall|i: int| 0 <= i < routes.len() ==> routes[i] == seq![b],
    ensures
        support(vs, pcs, routes, b, n) == ballot_weight(vs, pcs, n),
    decreases n,
{
    if n > 0 {
        lemma_support_single(vs, pcs, routes, b, n - 1);
        assert(routes[n - 1][0] == b);
        assert(routes[n - 1].contains(b));
        assert(voter_reaches(pcs, routes, n - 1, b));
    }
}

proof fn lemma_concat_single(routes: Seq<Seq<Block>>, b: Block, n: int)
    requires
        0 <= n <= routes.len(),
        forall|i: int| 0 <= i < routes.len() ==> routes[i] == seq![b],
    ensures
        concat(routes, n).len() == n,
        forall|k: int| 0 <= k < n ==> concat(routes, n)[k] == b,
    decreases n,
{
    if n > 0 {
        lemma_concat_single(routes, b, n - 1);
    }
}

proof fn lemma_best_single(
    vs: Seq<(AuthorityId, AuthorityWeight)>,
    pcs: Seq<Ballot>,
    routes: Seq<Seq<Block>>,
    cands: Seq<Block>,
    b: Block,
    k: int,
)
    requires
        0 <= k <= cands.len(),
        forall|i: int| 0 <= i < cands.len() ==> cands[i] == b,
    ensures
        best(vs, pcs, routes, cands, k) == if k > 0 && supermajority(
            support(vs, pcs, routes, b, pcs.len() as int),
            total_weight(vs, vs.len() as int),
        ) {
            Some(b)
        } else {
            None
        },
    decreases k,
{
    if k > 0 {
        lemma_best_single(vs, pcs, routes, cands, b, k - 1);
    }
}

/// Over a chain of the one target block, a commit whose precommits all
/// target that block has it as ghost exactly when its voters, each counted
/// once, hold at least two thirds of the voter weight; otherwise it has no
/// ghost.
pub proof fn lemma_one_block_ghost(c: Commit, vs: Seq<(AuthorityId, AuthorityWeight)>, hs: Seq<Header>)
    requires
        hs.len() == 1,
        hs[0].hash == c.target_hash && hs[0].number == c.target_number,
        forall|i: int| 0 <= i < c.precommits@.len() ==> (#[trigger] c.precommits@[i]).precommit.target_hash == c.target_hash,
    ensures
        commit_outcome(c, vs, hs) == Ok::<Option<Block>, Error>(
            if c.precommits@.len() > 0 && supermajority(
                ballot_weight(vs, precommit_ballots(c.precommits@), c.precommits@.len() as int),
                total_weight(vs, vs.len() as int),
            ) {
                Some((c.target_hash, c.target_number))
            } else {
                None
            },
        ),
{
    let base = (c.target_hash, c.target_number);
    let pcs = precommit_ballots(c.precommits@);
    assert forall|i: int| 0 <= i < pcs.len() implies (#[trigger] ancestry(hs, pcs[i].0, base)) == Some(seq![base]) by {
        assert(c.precommits@[i].precommit.target_hash == c.target_hash);
    }
    assert(all_linked(hs, pcs, base));
    let routes = routes_of(hs, pcs, base);
    assert forall|i: int| 0 <= i < routes.len() implies routes[i] == seq![base] by {
        assert(ancestry(hs, pcs[i].0, base) == Some(seq![base]));
    }
    lemma_support_single(vs, pcs, routes, base, pcs.len() as int);
    lemma_concat_single(routes, base, routes.len() as int);
    let cands = concat(routes, routes.len() as int);
    lemma_best_single(vs, pcs, routes, cands, base, cands.len() as int);
}

/// The block chosen among the first `k` candidates is one of them with
/// supermajority support, and no candidate with supermajority support ranks
/// above it; so the choice depends only on which candidates there are.
pub proof fn lemma_best_is_top(
    vs: Seq<(AuthorityId, AuthorityWeight)>,
    pcs: Seq<Ballot>,
    routes: Seq<Seq<Block>>,
    cands: Seq<Block>,
    k: int,
)
    requires
        0 <= k <= cands.len(),
    ensures
        ({
            let total = total_weight(vs, vs.len() as int);
            let g = best(vs, pcs, routes, cands, k);
            &&& g matches Some(b) ==> (exists|i: int| 0 <= i < k && cands[i] == b)
                && supermajority(support(vs, pcs, routes, b, pcs.len() as int), total)
            &&& forall|i: int| 0 <= i < k && supermajority(support(vs, pcs, routes, #[trigger] cands[i], pcs.len() as int), total)
                ==> g is Some && !ranks_above(cands[i], g.unwrap())
        }),
    decreases k,
{
    if k > 0 {
        lemma_best_is_top(vs, pcs, routes, cands, k - 1);
        let total = total_weight(vs, vs.len() as int);
        let prev = best(vs, pcs, routes, cands, k - 1);
        let g = best(vs, pcs, routes, cands, k);
        if let Some(b) = prev {
            let i = choose|i: int| 0 <= i < k - 1 && cands[i] == b;
            assert(0 <= i < k && cands[i] == b);
        }
        if g != prev {
            assert(cands[k - 1] == g.unwrap());
        }
    }
}

/// The ghost is one of the candidate blocks with supermajority support, and
/// none of those ranks above it.
pub proof fn lemma_ghost_is_top(
    vs: Seq<(AuthorityId, AuthorityWeight)>,
    pcs: Seq<Ballot>,
    routes: Seq<Seq<Block>>,
)
    ensures
        ({
            let cands = concat(routes, routes.len() as int);
            let total = total_weight(vs, vs.len() as int);
            let g = ghost_of(vs, pcs, routes);
            &&& g matches Some(b) ==> cands.contains(b)
                && supermajority(support(vs, pcs, routes, b, pcs.len() as int), total)
            &&& forall|c: Block| cands.contains(c) && supermajority(support(vs, pcs, routes, c, pcs.len() as int), total)
                ==> g is Some && !ranks_above(c, g.unwrap())
        }),
{
    let cands = concat(routes, routes.len() as int);
    lemma_best_is_top(vs, pcs, routes, cands, cands.len() as int);
}

} // verus!
