//! Proposals, votes, policy parameters and the tally rules.

use vstd::prelude::*;

verus! {

/// Where a proposal stands; every status but `Open` is final.
#[derive(Clone, Copy, Debug, PartialEq, Eq, Structural)]
pub enum Status {
    Open,
    Executed,
    Rejected,
    Cancelled,
    Expired,
}

/// One voter's recorded vote: its side and the voter's balance when it was cast.
#[derive(Clone, Copy, Debug, PartialEq, Eq, Structural)]
pub struct Vote {
    pub voter: u64,
    pub approve: bool,
    pub weight: u64,
}

/// Policy parameters of the governance process.
#[derive(Clone, Copy, Debug, PartialEq, Eq, Structural)]
pub struct Config {
    /// Balance a proposer must hold.
    pub min_stake: u64,
    /// Time from creation to deadline.
    pub voting_period: u64,
    /// Share of the total supply, in percent, that the cast weight must reach.
    pub quorum_percent: u64,
    /// Margin of the cast weight, in percent, that decides a proposal.
    pub approval_percent: u64,
    /// Share of the total supply, in percent, that emergency confirmations must exceed.
    pub emergency_percent: u64,
    /// The minted reward is the approval margin divided by this.
    pub reward_divisor: u64,
}

impl Config {
    pub open spec fn wf(&self) -> bool {
        &&& self.quorum_percent <= 100
        &&& self.approval_percent <= 100
        &&& self.emergency_percent <= 100
        &&& self.reward_divisor > 0
    }
}

/// What an approved proposal does.
#[derive(Debug)]
pub enum Payload {
    /// Installs new code: the commit it was built from, the binary, and its SHA-256 digest.
    Release { commit: Vec<u8>, binary: Vec<u8>, hash: Vec<u8> },
    /// Mints tokens to the receiver; `minted` records how many once executed.
    Reward { receiver: u64, minted: u64 },
    /// Pays a fixed amount from the treasury to the receiver.
    Fund { receiver: u64, amount: u64 },
}

pub enum PayloadView {
    Release { commit: Seq<u8>, binary: Seq<u8>, hash: Seq<u8> },
    Reward { receiver: u64, minted: u64 },
    Fund { receiver: u64, amount: u64 },
}

impl View for Payload {
    type V = PayloadView;

    open spec fn view(&self) -> PayloadView {
        match self {
            Payload::Release { commit, binary, hash } => PayloadView::Release {
                commit: commit@,
                binary: binary@,
                hash: hash@,
            },
            Payload::Reward { receiver, minted } => PayloadView::Reward {
                receiver: *receiver,
                minted: *minted,
            },
            Payload::Fund { receiver, amount } => PayloadView::Fund {
                receiver: *receiver,
                amount: *amount,
            },
        }
    }
}

pub struct Proposal {
    pub id: u32,
    pub proposer: u64,
    pub payload: Payload,
    pub votes: Vec<Vote>,
    pub status: Status,
    pub created_at: u64,
    pub deadline: u64,
}

pub struct ProposalView {
    pub id: u32,
    pub proposer: u64,
    pub payload: PayloadView,
    pub votes: Seq<Vote>,
    pub status: Status,
    pub created_at: u64,
    pub deadline: u64,
}

impl View for Proposal {
    type V = ProposalView;

    open spec fn view(&self) -> ProposalView {
        ProposalView {
            id: self.id,
            proposer: self.proposer,
            payload: self.payload@,
            votes: self.votes@,
            status: self.status,
            created_at: self.created_at,
            deadline: self.deadline,
        }
    }
}

/// Each voter appears at most once among the votes.
pub open spec fn voters_unique(v: Seq<Vote>) -> bool {
    forall|i: int, j: int| 0 <= i < j < v.len() ==> v[i].voter != v[j].voter
}

/// Whether `who` has a recorded vote.
pub open spec fn has_voter(v: Seq<Vote>, who: u64) -> bool {
    exists|j: int| 0 <= j < v.len() && v[j].voter == who
}

/// The votes after `x` is recorded: it replaces its voter's earlier vote, or is added last.
pub open spec fn record(v: Seq<Vote>, x: Vote) -> Seq<Vote> {
    if has_voter(v, x.voter) {
        v.map_values(|y: Vote| if y.voter == x.voter { x } else { y })
    } else {
        v.push(x)
    }
}

/// Total weight of the approving votes.
pub open spec fn yes_of(v: Seq<Vote>) -> nat
    decreases v.len(),
{
    if v.len() == 0 {
        0
    } else {
        yes_of(v.drop_last()) + if v.last().approve {
            v.last().weight as nat
        } else {
            0
        }
    }
}

/// Total weight of the rejecting votes.
pub open spec fn no_of(v: Seq<Vote>) -> nat
    decreases v.len(),
{
    if v.len() == 0 {
        0
    } else {
        no_of(v.drop_last()) + if v.last().approve {
            0
        } else {
            v.last().weight as nat
        }
    }
}

pub open spec fn quorum_met(cast: int, supply: int, cfg: Config) -> bool {
    cast * 100 >= cfg.quorum_percent * supply
}

/// The approval margin strictly exceeds the threshold share of the cast weight.
pub open spec fn accepts(yes: int, no: int, cfg: Config) -> bool {
    (yes - no) * 100 > cfg.approval_percent * (yes + no)
}

/// The margin reaches the threshold without accepting: a tie at the threshold rejects.
pub open spec fn rejects(yes: int, no: int, cfg: Config) -> bool {
    &&& !accepts(yes, no, cfg)
    &&& (if yes >= no { yes - no } else { no - yes }) * 100 >= cfg.approval_percent * (yes + no)
}

/// What the tally decides on these votes against this total supply.
pub open spec fn outcome(v: Seq<Vote>, supply: nat, cfg: Config) -> Status {
    let y = yes_of(v) as int;
    let n = no_of(v) as int;
    if !quorum_met(y + n, supply as int, cfg) {
        Status::Open
    } else if accepts(y, n, cfg) {
        Status::Executed
    } else if rejects(y, n, cfg) {
        Status::Rejected
    } else {
        Status::Open
    }
}

/// The reward minted for an accepted tally, before the supply cap.
pub open spec fn reward_for(v: Seq<Vote>, cfg: Config) -> int {
    (yes_of(v) - no_of(v)) / (cfg.reward_divisor as int)
}

pub proof fn lemma_record_index(v: Seq<Vote>, i: int, x: Vote)
    requires
        voters_unique(v),
        0 <= i < v.len(),
        v[i].voter == x.voter,
    ensures
        record(v, x) == v.update(i, x),
{
    assert(has_voter(v, x.voter));
    assert(record(v, x) =~= v.update(i, x));
}

/// Bounds the tallies by the number of votes, so that they fit in wide integers.
pub proof fn lemma_tally_bound(v: Seq<Vote>)
    ensures
        yes_of(v) + no_of(v) <= v.len() * (u64::MAX as int),
    decreases v.len(),
{
    if v.len() > 0 {
        lemma_tally_bound(v.drop_last());
        assert((v.len() - 1) * (u64::MAX as int) + u64::MAX == v.len() * (u64::MAX as int))
            by (nonlinear_arith);
    }
}

impl Proposal {
    pub open spec fn wf(&self) -> bool {
        &&& voters_unique(self.votes@)
        &&& self.votes@.len() <= u32::MAX
    }

    /// The approving and rejecting weight of the recorded votes.
    pub fn tally(&self) -> (r: (u128, u128))
        requires
            self.wf(),
        ensures
            r.0 == yes_of(self.votes@),
            r.1 == no_of(self.votes@),
            r.0 + r.1 <= u32::MAX * u64::MAX,
    {
        let mut yes: u128 = 0;
        let mut no: u128 = 0;
        let mut i: usize = 0;
        while i < self.votes.len()
            invariant
                self.wf(),
                i <= self.votes@.len(),
                yes == yes_of(self.votes@.take(i as int)),
                no == no_of(self.votes@.take(i as int)),
                yes + no <= i * u64::MAX,
            decreases self.votes@.len() - i,
        {
            proof {
                assert(self.votes@.take(i + 1).drop_last() =~= self.votes@.take(i as int));
                assert(i * u64::MAX + u64::MAX == (i + 1) * u64::MAX) by (nonlinear_arith);
                assert((i + 1) * u64::MAX <= u32::MAX * u64::MAX) by (nonlinear_arith)
                    requires i + 1 <= u32::MAX;
            }
            let v = self.votes[i];
            if v.approve {
                yes = yes + v.weight as u128;
            } else {
                no = no + v.weight as u128;
            }
            i = i + 1;
        }
        proof {
            assert(self.votes@.take(i as int) =~= self.votes@);
            assert(i * u64::MAX <= u32::MAX * u64::MAX) by (nonlinear_arith)
                requires i <= u32::MAX;
        }
        (yes, no)
    }

    /// The position of `voter`'s vote, if it has voted.
    pub fn vote_index(&self, voter: u64) -> (r: Option<usize>)
        ensures
            match r {
                Some(i) => i < self.votes@.len() && self.votes@[i as int].voter == voter,
                None => forall|j: int| 0 <= j < self.votes@.len() ==> self.votes@[j].voter != voter,
            },
    {
        let mut i: usize = 0;
        while i < self.votes.len()
            invariant
                i <= self.votes@.len(),
                forall|j: int| 0 <= j < i ==> self.votes@[j].voter != voter,
            decreases self.votes@.len() - i,
        {
            if self.votes[i].voter == voter {
                return Some(i);
            }
            i = i + 1;
        }
        None
    }
}

/// What the tally decides, given its approving and rejecting weight.
pub fn decide(yes: u128, no: u128, supply: u64, cfg: &Config) -> (r: Status)
    requires
        cfg.wf(),
        yes + no <= u32::MAX * u64::MAX,
    ensures
        r == ({
            let y = yes as int;
            let n = no as int;
            if !quorum_met(y + n, supply as int, *cfg) {
                Status::Open
            } else if accepts(y, n, *cfg) {
                Status::Executed
            } else if rejects(y, n, *cfg) {
                Status::Rejected
            } else {
                Status::Open
            }
        }),
{
    let cast = yes + no;
    proof {
        assert(cfg.quorum_percent * supply <= 100 * u64::MAX) by (nonlinear_arith)
            requires cfg.quorum_percent <= 100, supply <= u64::MAX;
        assert(cfg.approval_percent * cast <= 100 * (u32::MAX * u64::MAX)) by (nonlinear_arith)
            requires cfg.approval_percent <= 100, cast <= u32::MAX * u64::MAX;
    }
    if cast * 100 < cfg.quorum_percent as u128 * supply as u128 {
        return Status::Open;
    }
    let bar = cfg.approval_percent as u128 * cast;
    if yes > no && (yes - no) * 100 > bar {
        Status::Executed
    } else {
        let margin = if yes >= no { yes - no } else { no - yes };
        if margin * 100 >= bar {
            Status::Rejected
        } else {
            Status::Open
        }
    }
}

} // verus!
