//! The governance world and its proposal store: creating, voting on,
//! executing, cancelling and expiring proposals.

use vstd::prelude::*;
use crate::digest::{sha256, sha256_of};
use crate::ledger::{balance_in, keys_unique, total_of, Ledger};
use crate::proposals::{
    decide, has_voter, outcome, record, reward_for, voters_unique, Config, Payload, PayloadView,
    Proposal, ProposalView, Status, Vote, lemma_record_index,
};
use crate::GovError;

verus! {

/// The whole governance world: ledger, proposal store, emergency state and
/// the binary scheduled for installation, if any.
pub struct State {
    pub ledger: Ledger,
    /// Account that pays approved funding proposals.
    pub treasury: u64,
    /// Accounts trusted to publish emergency binaries.
    pub stalwarts: Vec<u64>,
    pub proposals: Vec<Proposal>,
    /// The pending emergency binary; empty when there is none.
    pub emergency_binary: Vec<u8>,
    /// Confirmations of the pending emergency binary: confirmer and its balance then.
    pub emergency_votes: Vec<(u64, u64)>,
    /// The binary that the host is to install at the next replacement.
    pub upgrade: Option<Vec<u8>>,
}

pub struct StateView {
    pub balances: Seq<(u64, u64)>,
    pub treasury: u64,
    pub stalwarts: Seq<u64>,
    pub proposals: Seq<ProposalView>,
    pub emergency_binary: Seq<u8>,
    pub emergency_votes: Seq<(u64, u64)>,
    pub upgrade: Option<Seq<u8>>,
}

pub open spec fn opt_view(o: Option<Vec<u8>>) -> Option<Seq<u8>> {
    match o {
        Some(v) => Some(v@),
        None => None,
    }
}

impl View for State {
    type V = StateView;

    open spec fn view(&self) -> StateView {
        StateView {
            balances: self.ledger.entries@,
            treasury: self.treasury,
            stalwarts: self.stalwarts@,
            proposals: self.proposals@.map_values(|p: Proposal| p@),
            emergency_binary: self.emergency_binary@,
            emergency_votes: self.emergency_votes@,
            upgrade: opt_view(self.upgrade),
        }
    }
}

/// Invariant of the governance world.
pub open spec fn state_wf(s: StateView) -> bool {
    &&& keys_unique(s.balances)
    &&& total_of(s.balances) <= u64::MAX
    &&& s.proposals.len() <= u32::MAX
    &&& forall|i: int|
        0 <= i < s.proposals.len() ==> {
            &&& (#[trigger] s.proposals[i]).id == i
            &&& voters_unique(s.proposals[i].votes)
            &&& s.proposals[i].votes.len() <= u32::MAX
        }
    &&& keys_unique(s.emergency_votes)
    &&& s.emergency_votes.len() <= u32::MAX
}

/// The deadline of a proposal created at `now`.
pub open spec fn deadline_after(now: u64, cfg: Config) -> u64 {
    if now + cfg.voting_period <= u64::MAX {
        (now + cfg.voting_period) as u64
    } else {
        u64::MAX
    }
}

/// The payload as it is stored at creation: a release carries the digest of its binary.
pub open spec fn stored_payload(p: PayloadView) -> PayloadView {
    match p {
        PayloadView::Release { commit, binary, hash } => PayloadView::Release {
            commit,
            binary,
            hash: sha256_of(binary),
        },
        PayloadView::Reward { receiver, minted } => PayloadView::Reward { receiver, minted: 0 },
        PayloadView::Fund { receiver, amount } => PayloadView::Fund { receiver, amount },
    }
}

/// How `propose` changes the world.
pub open spec fn propose_step(
    o: StateView,
    n: StateView,
    r: Result<u32, GovError>,
    cfg: Config,
    proposer: u64,
    payload: PayloadView,
    now: u64,
) -> bool {
    if balance_in(o.balances, proposer) < cfg.min_stake {
        r == Err::<u32, GovError>(GovError::InsufficientStake) && n == o
    } else if payload is Release && payload->Release_binary.len() == 0 {
        r == Err::<u32, GovError>(GovError::InvalidPayload) && n == o
    } else if o.proposals.len() == u32::MAX {
        r == Err::<u32, GovError>(GovError::StoreFull) && n == o
    } else {
        &&& r == Ok::<u32, GovError>(o.proposals.len() as u32)
        &&& n == StateView {
            proposals: o.proposals.push(
                ProposalView {
                    id: o.proposals.len() as u32,
                    proposer,
                    payload: stored_payload(payload),
                    votes: Seq::empty(),
                    status: Status::Open,
                    created_at: now,
                    deadline: deadline_after(now, cfg),
                },
            ),
            ..o
        }
    }
}

/// What stands in the store while a proposal is taken out to be changed.
pub open spec fn blank_view() -> ProposalView {
    ProposalView {
        id: 0,
        proposer: 0,
        payload: PayloadView::Fund { receiver: 0, amount: 0 },
        votes: Seq::empty(),
        status: Status::Cancelled,
        created_at: 0,
        deadline: 0,
    }
}

/// `n` is `o` with proposal `i` replaced by `p`.
pub open spec fn with_proposal(o: StateView, i: int, p: ProposalView) -> StateView {
    StateView { proposals: o.proposals.update(i, p), ..o }
}

/// How executing an accepted proposal, with these votes, changes the world.
pub open spec fn execute_step(
    o: StateView,
    n: StateView,
    r: Result<Status, GovError>,
    cfg: Config,
    i: int,
    votes: Seq<Vote>,
) -> bool {
    let p = o.proposals[i];
    let supply = total_of(o.balances);
    let done = ProposalView { votes, status: Status::Executed, ..p };
    match p.payload {
        PayloadView::Release { commit, binary, hash } => {
            &&& r == Ok::<Status, GovError>(Status::Executed)
            &&& n == StateView {
                upgrade: Some(binary),
                ..with_proposal(
                    o,
                    i,
                    ProposalView {
                        payload: PayloadView::Release { commit, binary, hash: sha256_of(binary) },
                        ..done
                    },
                )
            }
        },
        PayloadView::Reward { receiver, minted } => {
            let m = if reward_for(votes, cfg) <= u64::MAX - supply {
                reward_for(votes, cfg)
            } else {
                u64::MAX - supply
            };
            &&& r == Ok::<Status, GovError>(Status::Executed)
            &&& n == StateView {
                balances: n.balances,
                ..with_proposal(
                    o,
                    i,
                    ProposalView {
                        payload: PayloadView::Reward { receiver, minted: m as u64 },
                        ..done
                    },
                )
            }
            &&& total_of(n.balances) == supply + m
            &&& forall|a: u64|
                #[trigger] balance_in(n.balances, a) == balance_in(o.balances, a) + if a
                    == receiver {
                    m
                } else {
                    0
                }
        },
        PayloadView::Fund { receiver, amount } => {
            if amount <= balance_in(o.balances, o.treasury) {
                &&& r == Ok::<Status, GovError>(Status::Executed)
                &&& n == StateView { balances: n.balances, ..with_proposal(o, i, done) }
                &&& total_of(n.balances) == supply
                &&& forall|a: u64|
                    #[trigger] balance_in(n.balances, a) == balance_in(o.balances, a) - (if a
                        == o.treasury {
                        amount as int
                    } else {
                        0
                    }) + (if a == receiver {
                        amount as int
                    } else {
                        0
                    })
            } else {
                &&& r == Err::<Status, GovError>(GovError::InsufficientTreasury)
                &&& n == with_proposal(
                    o,
                    i,
                    ProposalView { votes, status: Status::Rejected, ..p },
                )
            }
        },
    }
}

/// How a vote changes the world.
pub open spec fn vote_step(
    o: StateView,
    n: StateView,
    r: Result<Status, GovError>,
    cfg: Config,
    id: u32,
    voter: u64,
    approve: bool,
    now: u64,
) -> bool {
    let i = id as int;
    if i >= o.proposals.len() {
        r == Err::<Status, GovError>(GovError::ProposalNotFound) && n == o
    } else {
        let p = o.proposals[i];
        let w = balance_in(o.balances, voter);
        let votes = record(p.votes, Vote { voter, approve, weight: w as u64 });
        let d = outcome(votes, total_of(o.balances), cfg);
        if p.status != Status::Open {
            r == Err::<Status, GovError>(GovError::ProposalClosed) && n == o
        } else if now >= p.deadline {
            &&& r == Err::<Status, GovError>(GovError::ProposalClosed)
            &&& n == with_proposal(o, i, ProposalView { status: Status::Expired, ..p })
        } else if w == 0 {
            r == Err::<Status, GovError>(GovError::NoVotingPower) && n == o
        } else if !has_voter(p.votes, voter) && p.votes.len() == u32::MAX {
            r == Err::<Status, GovError>(GovError::StoreFull) && n == o
        } else if d == Status::Executed {
            execute_step(o, n, r, cfg, i, votes)
        } else {
            &&& r == Ok::<Status, GovError>(d)
            &&& n == with_proposal(o, i, ProposalView { votes, status: d, ..p })
        }
    }
}

/// How a cancellation changes the world.
pub open spec fn cancel_step(o: StateView, n: StateView, r: Result<(), GovError>, id: u32, caller: u64) -> bool {
    let i = id as int;
    if i >= o.proposals.len() {
        r == Err::<(), GovError>(GovError::ProposalNotFound) && n == o
    } else if o.proposals[i].status != Status::Open {
        r == Err::<(), GovError>(GovError::ProposalClosed) && n == o
    } else if o.proposals[i].proposer != caller {
        r == Err::<(), GovError>(GovError::NotProposer) && n == o
    } else {
        &&& r == Ok::<(), GovError>(())
        &&& n == with_proposal(o, i, ProposalView { status: Status::Cancelled, ..o.proposals[i] })
    }
}

/// The proposals after a sweep at `now`: open ones past their deadline expire.
pub open spec fn swept(ps: Seq<ProposalView>, now: u64) -> Seq<ProposalView> {
    ps.map_values(
        |p: ProposalView|
            if p.status == Status::Open && now >= p.deadline {
                ProposalView { status: Status::Expired, ..p }
            } else {
                p
            },
    )
}

/// A proposal that has left `Open` never changes again: a vote touches no
/// such proposal, and a vote on it changes nothing and reports it closed, so
/// tallying it again after execution runs no payload a second time.
pub proof fn lemma_vote_keeps_closed(
    o: StateView,
    n: StateView,
    r: Result<Status, GovError>,
    cfg: Config,
    id: u32,
    voter: u64,
    approve: bool,
    now: u64,
    j: int,
)
    requires
        vote_step(o, n, r, cfg, id, voter, approve, now),
        0 <= j < o.proposals.len(),
        o.proposals[j].status != Status::Open,
    ensures
        n.proposals.len() == o.proposals.len(),
        n.proposals[j] == o.proposals[j],
        id == j ==> n == o && r == Err::<Status, GovError>(GovError::ProposalClosed),
{
}

/// A cancellation touches no proposal that has left `Open`.
pub proof fn lemma_cancel_keeps_closed(
    o: StateView,
    n: StateView,
    r: Result<(), GovError>,
    id: u32,
    caller: u64,
    j: int,
)
    requires
        cancel_step(o, n, r, id, caller),
        0 <= j < o.proposals.len(),
        o.proposals[j].status != Status::Open,
    ensures
        n.proposals.len() == o.proposals.len(),
        n.proposals[j] == o.proposals[j],
        id == j ==> n == o && r == Err::<(), GovError>(GovError::ProposalClosed),
{
}

/// Every proposal starts `Open`, and a vote moves a proposal's status only out of `Open`.
pub proof fn lemma_status_leaves_open_once(
    o: StateView,
    n: StateView,
    r: Result<Status, GovError>,
    cfg: Config,
    id: u32,
    voter: u64,
    approve: bool,
    now: u64,
    j: int,
)
    requires
        vote_step(o, n, r, cfg, id, voter, approve, now),
        0 <= j < o.proposals.len(),
        n.proposals[j].status != o.proposals[j].status,
    ensures
        o.proposals[j].status == Status::Open,
        j == id,
{
}

/// Only a voter's last vote counts: recording a second vote of the same voter
/// gives the same votes as recording the second alone.
pub proof fn lemma_last_vote_counts(v: Seq<Vote>, x: Vote, y: Vote)
    requires
        voters_unique(v),
        x.voter == y.voter,
    ensures
        record(record(v, x), y) == record(v, y),
{
    if has_voter(v, x.voter) {
        let w = record(v, x);
        assert(has_voter(w, y.voter)) by {
            let j = choose|j: int| 0 <= j < v.len() && v[j].voter == x.voter;
            assert(w[j].voter == y.voter);
        }
        assert(record(w, y) =~= record(v, y));
    } else {
        let w = v.push(x);
        assert(w[v.len() as int].voter == y.voter);
        assert(has_voter(w, y.voter));
        assert(record(w, y) =~= v.push(y));
    }
}

/// A proposal's outcome, once decided, does not depend on the supply later:
/// with any balances at all, a vote on it is refused and leaves it as it was.
pub proof fn lemma_decided_outcome_survives_supply(
    o: StateView,
    balances: Seq<(u64, u64)>,
    n: StateView,
    r: Result<Status, GovError>,
    cfg: Config,
    id: u32,
    voter: u64,
    approve: bool,
    now: u64,
)
    requires
        (id as int) < o.proposals.len(),
        o.proposals[id as int].status != Status::Open,
        vote_step(StateView { balances, ..o }, n, r, cfg, id, voter, approve, now),
    ensures
        r == Err::<Status, GovError>(GovError::ProposalClosed),
        n.proposals == o.proposals,
{
}

impl State {
    pub open spec fn wf(&self) -> bool {
        state_wf(self@)
    }

    /// A world with no accounts, proposals or pending binaries.
    pub fn new(treasury: u64) -> (r: State)
        ensures
            r.wf(),
            r@ == (StateView {
                balances: Seq::empty(),
                treasury,
                stalwarts: Seq::empty(),
                proposals: Seq::empty(),
                emergency_binary: Seq::empty(),
                emergency_votes: Seq::empty(),
                upgrade: None,
            }),
    {
        let r = State {
            ledger: Ledger::new(),
            treasury,
            stalwarts: Vec::new(),
            proposals: Vec::new(),
            emergency_binary: Vec::new(),
            emergency_votes: Vec::new(),
            upgrade: None,
        };
        assert(r@.proposals =~= Seq::<ProposalView>::empty());
        r
    }

    /// Takes proposal `i` out of the store, leaving an empty one in its place.
    fn take_proposal(&mut self, i: usize) -> (p: Proposal)
        requires
            i < old(self).proposals@.len(),
        ensures
            p == old(self).proposals@[i as int],
            final(self)@ == with_proposal(old(self)@, i as int, blank_view()),
            final(self).proposals@.len() == old(self).proposals@.len(),
            final(self).ledger == old(self).ledger,
            final(self).treasury == old(self).treasury,
    {
        let ghost before = self.proposals@;
        let mut p = Proposal {
            id: 0,
            proposer: 0,
            payload: Payload::Fund { receiver: 0, amount: 0 },
            votes: Vec::new(),
            status: Status::Cancelled,
            created_at: 0,
            deadline: 0,
        };
        std::mem::swap(&mut p, &mut self.proposals[i]);
        assert(self.proposals@[i as int]@.votes =~= Seq::<Vote>::empty());
        assert(self@.proposals =~= before.map_values(|q: Proposal| q@).update(i as int, blank_view()));
        p
    }

    /// Puts `p` back as proposal `i`.
    fn put_proposal(&mut self, i: usize, p: Proposal)
        requires
            i < old(self).proposals@.len(),
        ensures
            final(self)@ == with_proposal(old(self)@, i as int, p@),
            final(self).proposals@.len() == old(self).proposals@.len(),
            final(self).ledger == old(self).ledger,
    {
        let ghost before = self.proposals@;
        self.proposals.set(i, p);
        assert(self@.proposals =~= before.map_values(|q: Proposal| q@).update(i as int, p@));
    }

    /// Creates a proposal; its id is the number of proposals made before it.
    pub fn propose(&mut self, cfg: &Config, proposer: u64, payload: Payload, now: u64) -> (r: Result<
        u32,
        GovError,
    >)
        requires
            old(self).wf(),
        ensures
            final(self).wf(),
            propose_step(old(self)@, final(self)@, r, *cfg, proposer, payload@, now),
    {
        if self.ledger.balance_of(proposer) < cfg.min_stake {
            return Err(GovError::InsufficientStake);
        }
        let ghost pv = payload@;
        let payload = match payload {
            Payload::Release { commit, binary, hash: _ } => {
                if binary.len() == 0 {
                    return Err(GovError::InvalidPayload);
                }
                let hash = sha256(&binary);
                Payload::Release { commit, binary, hash }
            },
            Payload::Reward { receiver, minted: _ } => Payload::Reward { receiver, minted: 0 },
            Payload::Fund { receiver, amount } => Payload::Fund { receiver, amount },
        };
        assert(payload@ == stored_payload(pv));
        if self.proposals.len() >= u32::MAX as usize {
            return Err(GovError::StoreFull);
        }
        let id = self.proposals.len() as u32;
        let deadline = if now <= u64::MAX - cfg.voting_period {
            now + cfg.voting_period
        } else {
            u64::MAX
        };
        let ghost before = self@;
        self.proposals.push(
            Proposal {
                id,
                proposer,
                payload,
                votes: Vec::new(),
                status: Status::Open,
                created_at: now,
                deadline,
            },
        );
        assert(self@.proposals =~= before.proposals.push(self.proposals@.last()@));
        Ok(id)
    }

    /// Records `voter`'s stake-weighted vote on proposal `id`, then tallies it
    /// against the current total supply and executes or rejects it when decided.
    pub fn vote(&mut self, cfg: &Config, id: u32, voter: u64, approve: bool, now: u64) -> (r: Result<
        Status,
        GovError,
    >)
        requires
            old(self).wf(),
            cfg.wf(),
        ensures
            final(self).wf(),
            vote_step(old(self)@, final(self)@, r, *cfg, id, voter, approve, now),
    {
        let i = id as usize;
        if i >= self.proposals.len() {
            return Err(GovError::ProposalNotFound);
        }
        let ghost o = self@;
        assert(o.proposals[i as int] == self.proposals@[i as int]@);
        if self.proposals[i].status != Status::Open {
            return Err(GovError::ProposalClosed);
        }
        if now >= self.proposals[i].deadline {
            let mut p = self.take_proposal(i);
            p.status = Status::Expired;
            self.put_proposal(i, p);
            assert(self@.proposals =~= o.proposals.update(i as int, p@));
            return Err(GovError::ProposalClosed);
        }
        let weight = self.ledger.balance_of(voter);
        if weight == 0 {
            return Err(GovError::NoVotingPower);
        }
        let existing = self.proposals[i].vote_index(voter);
        if existing.is_none() && self.proposals[i].votes.len() >= u32::MAX as usize {
            return Err(GovError::StoreFull);
        }
        let supply = self.ledger.total_supply();
        let mut p = self.take_proposal(i);
        let ballot = Vote { voter, approve, weight };
        let ghost old_votes = p.votes@;
        match existing {
            Some(k) => {
                proof {
                    lemma_record_index(old_votes, k as int, ballot);
                }
                p.votes.set(k, ballot);
            },
            None => {
                assert(!has_voter(old_votes, voter));
                p.votes.push(ballot);
            },
        }
        assert(p.votes@ == record(old_votes, ballot));
        assert(voters_unique(p.votes@));
        let (yes, no) = p.tally();
        let d = decide(yes, no, supply, cfg);
        assert(d == outcome(p.votes@, total_of(o.balances), *cfg));
        if d == Status::Executed {
            let mut payload = Payload::Fund { receiver: 0, amount: 0 };
            std::mem::swap(&mut payload, &mut p.payload);
            let res = match payload {
                Payload::Release { commit, binary, hash: _ } => {
                    let hash = sha256(&binary);
                    let copy = binary.clone();
                    assert(copy@ =~= binary@);
                    self.upgrade = Some(copy);
                    p.payload = Payload::Release { commit, binary, hash };
                    p.status = Status::Executed;
                    Ok(Status::Executed)
                },
                Payload::Reward { receiver, minted: _ } => {
                    let reward = (yes - no) / cfg.reward_divisor as u128;
                    let room = (u64::MAX - supply) as u128;
                    let m: u64 = if reward <= room {
                        reward as u64
                    } else {
                        room as u64
                    };
                    let minted = self.ledger.mint(receiver, m);
                    assert(minted is Ok);
                    p.payload = Payload::Reward { receiver, minted: m };
                    p.status = Status::Executed;
                    Ok(Status::Executed)
                },
                Payload::Fund { receiver, amount } => {
                    p.payload = Payload::Fund { receiver, amount };
                    match self.ledger.transfer(self.treasury, receiver, amount) {
                        Ok(()) => {
                            p.status = Status::Executed;
                            Ok(Status::Executed)
                        },
                        Err(_) => {
                            p.status = Status::Rejected;
                            Err(GovError::InsufficientTreasury)
                        },
                    }
                },
            };
            self.put_proposal(i, p);
            assert(self@.proposals =~= o.proposals.update(i as int, p@));
            res
        } else {
            p.status = d;
            self.put_proposal(i, p);
            assert(self@.proposals =~= o.proposals.update(i as int, p@));
            Ok(d)
        }
    }

    /// Cancels proposal `id`; only its proposer may, and only while it is open.
    pub fn cancel(&mut self, id: u32, caller: u64) -> (r: Result<(), GovError>)
        requires
            old(self).wf(),
        ensures
            final(self).wf(),
            cancel_step(old(self)@, final(self)@, r, id, caller),
    {
        let i = id as usize;
        if i >= self.proposals.len() {
            return Err(GovError::ProposalNotFound);
        }
        let ghost o = self@;
        assert(o.proposals[i as int] == self.proposals@[i as int]@);
        if self.proposals[i].status != Status::Open {
            return Err(GovError::ProposalClosed);
        }
        if self.proposals[i].proposer != caller {
            return Err(GovError::NotProposer);
        }
        let mut p = self.take_proposal(i);
        p.status = Status::Cancelled;
        self.put_proposal(i, p);
        assert(self@.proposals =~= o.proposals.update(i as int, p@));
        Ok(())
    }

    /// Periodic housekeeping: every open proposal whose deadline has passed expires.
    pub fn sweep_expired(&mut self, now: u64)
        requires
            old(self).wf(),
        ensures
            final(self).wf(),
            final(self)@ == (StateView { proposals: swept(old(self)@.proposals, now), ..old(self)@ }),
    {
        let ghost o = self@;
        let mut i: usize = 0;
        assert(o.proposals =~= swept(o.proposals, now).take(0) + o.proposals.skip(0));
        while i < self.proposals.len()
            invariant
                i <= self.proposals@.len(),
                self.proposals@.len() == o.proposals.len(),
                self.wf(),
                self@ == (StateView {
                    proposals: swept(o.proposals, now).take(i as int) + o.proposals.skip(i as int),
                    ..o
                }),
            decreases self.proposals@.len() - i,
        {
            assert(self@.proposals[i as int] == o.proposals[i as int]);
            if self.proposals[i].status == Status::Open && now >= self.proposals[i].deadline {
                let mut p = self.take_proposal(i);
                p.status = Status::Expired;
                self.put_proposal(i, p);
            }
            assert(self@.proposals =~= swept(o.proposals, now).take(i + 1) + o.proposals.skip(i + 1));
            i = i + 1;
        }
        assert(self@.proposals =~= swept(o.proposals, now));
    }

    /// The proposal with this id.
    pub fn proposal(&self, id: u32) -> (r: Option<&Proposal>)
        requires
            self.wf(),
        ensures
            (id as int) < self.proposals@.len() <==> r is Some,
            r matches Some(p) ==> p@ == self@.proposals[id as int],
    {
        if (id as usize) < self.proposals.len() {
            Some(&self.proposals[id as usize])
        } else {
            None
        }
    }

    /// Ids of one page of proposals, most recent first: page `page` of pages
    /// holding `page_size` each.
    pub fn list_page(&self, page: usize, page_size: usize) -> (r: Vec<u32>)
        requires
            self.wf(),
        ensures
            r@.len() == if page * page_size >= self.proposals@.len() {
                0
            } else {
                let rest = self.proposals@.len() - page * page_size;
                if rest < page_size {
                    rest
                } else {
                    page_size as int
                }
            },
            forall|k: int|
                0 <= k < r@.len() ==> r@[k] == self.proposals@.len() - 1 - page * page_size - k,
    {
        let n = self.proposals.len();
        let mut out: Vec<u32> = Vec::new();
        if page_size == 0 || n == 0 || page > (n - 1) / page_size {
            proof {
                if page_size > 0 && n > 0 {
                    assert(page * page_size >= n) by (nonlinear_arith)
                        requires page > (n - 1) as int / page_size as int, page_size > 0, n > 0;
                }
            }
            return out;
        }
        proof {
            assert(page * page_size <= n - 1) by (nonlinear_arith)
                requires page <= (n - 1) as int / page_size as int, page_size > 0, n > 0;
        }
        let start = n - 1 - page * page_size;
        let count = if start + 1 < page_size { start + 1 } else { page_size };
        let mut k: usize = 0;
        while k < count
            invariant
                count <= start + 1,
                start < n,
                n == self.proposals@.len(),
                n <= u32::MAX,
                start == n - 1 - page * page_size,
                k <= count,
                out@.len() == k,
                forall|j: int| 0 <= j < k ==> out@[j] == start - j,
            decreases count - k,
        {
            out.push((start - k) as u32);
            k = k + 1;
        }
        out
    }
}

} // verus!
