use taggr::backup::{backup_chunk, backup_page, BACKUP_PAGE_SIZE};
use taggr::digest::{digest_hex, to_hex};
use taggr::proposals::{Config, Payload, Status};
use taggr::snapshot::{restore, serialize};
use taggr::state::State;
use taggr::GovError;

const TREASURY: u64 = 1;

fn config() -> Config {
    Config {
        min_stake: 10,
        voting_period: 100,
        quorum_percent: 50,
        approval_percent: 20,
        emergency_percent: 50,
        reward_divisor: 10,
    }
}

fn world(balances: &[(u64, u64)]) -> State {
    let mut s = State::new(TREASURY);
    for (acc, amount) in balances {
        s.ledger.mint(*acc, *amount).unwrap();
    }
    s
}

fn release(binary: &[u8]) -> Payload {
    Payload::Release { commit: b"abc123".to_vec(), binary: binary.to_vec(), hash: vec![] }
}

fn digest_text(binary: &[u8]) -> String {
    String::from_utf8(digest_hex(&binary.to_vec())).unwrap()
}

#[test]
fn fund_proposal_fails_on_insufficient_treasury() {
    let cfg = config();
    let mut s = world(&[(10, 100), (TREASURY, 200), (20, 1000), (30, 50)]);
    let id = s.propose(&cfg, 10, Payload::Fund { receiver: 10, amount: 500 }, 0).unwrap();
    assert_eq!(s.vote(&cfg, id, 30, true, 1), Ok(Status::Open));
    assert_eq!(s.vote(&cfg, id, 20, true, 2), Err(GovError::InsufficientTreasury));
    assert_eq!(s.proposal(id).unwrap().status, Status::Rejected);
    assert_eq!(s.ledger.balance_of(TREASURY), 200);
    assert_eq!(s.ledger.balance_of(10), 100);
}

#[test]
fn fund_proposal_pays_from_treasury() {
    let cfg = config();
    let mut s = world(&[(10, 100), (TREASURY, 200), (20, 1000)]);
    let id = s.propose(&cfg, 10, Payload::Fund { receiver: 10, amount: 150 }, 0).unwrap();
    assert_eq!(s.vote(&cfg, id, 20, true, 1), Ok(Status::Executed));
    assert_eq!(s.ledger.balance_of(TREASURY), 50);
    assert_eq!(s.ledger.balance_of(10), 250);
    assert_eq!(s.ledger.total_supply(), 1300);
}

#[test]
fn zero_balance_vote_has_no_power() {
    let cfg = config();
    let mut s = world(&[(10, 100)]);
    let id = s.propose(&cfg, 10, Payload::Fund { receiver: 10, amount: 5 }, 0).unwrap();
    assert_eq!(s.vote(&cfg, id, 99, true, 1), Err(GovError::NoVotingPower));
    let p = s.proposal(id).unwrap();
    assert!(p.votes.is_empty());
    assert_eq!(p.status, Status::Open);
}

#[test]
fn later_vote_replaces_earlier_one() {
    let cfg = config();
    let mut s = world(&[(10, 100), (20, 30), (30, 1000)]);
    let id = s.propose(&cfg, 10, Payload::Fund { receiver: 10, amount: 5 }, 0).unwrap();
    assert_eq!(s.vote(&cfg, id, 20, true, 1), Ok(Status::Open));
    assert_eq!(s.vote(&cfg, id, 20, false, 2), Ok(Status::Open));
    let p = s.proposal(id).unwrap();
    assert_eq!(p.votes.len(), 1);
    assert!(!p.votes[0].approve);
    assert_eq!(p.votes[0].weight, 30);
    assert_eq!(p.tally(), (0, 30));
}

#[test]
fn executed_proposal_is_final() {
    let cfg = config();
    let mut s = world(&[(10, 100), (20, 1000)]);
    let id = s.propose(&cfg, 10, Payload::Reward { receiver: 10, minted: 0 }, 0).unwrap();
    assert_eq!(s.vote(&cfg, id, 20, true, 1), Ok(Status::Executed));
    let after = s.ledger.balance_of(10);
    assert_eq!(s.vote(&cfg, id, 20, true, 2), Err(GovError::ProposalClosed));
    assert_eq!(s.vote(&cfg, id, 10, true, 3), Err(GovError::ProposalClosed));
    assert_eq!(s.ledger.balance_of(10), after);
    assert_eq!(s.cancel(id, 10), Err(GovError::ProposalClosed));
    assert_eq!(s.proposal(id).unwrap().status, Status::Executed);
}

#[test]
fn reward_mints_margin_share() {
    let cfg = config();
    let mut s = world(&[(10, 100), (20, 1000)]);
    let id = s.propose(&cfg, 10, Payload::Reward { receiver: 30, minted: 7 }, 0).unwrap();
    match s.proposal(id).unwrap().payload {
        Payload::Reward { minted, .. } => assert_eq!(minted, 0),
        _ => panic!("wrong payload"),
    }
    assert_eq!(s.vote(&cfg, id, 20, true, 1), Ok(Status::Executed));
    assert_eq!(s.ledger.balance_of(30), 100);
    assert_eq!(s.ledger.total_supply(), 1200);
    match s.proposal(id).unwrap().payload {
        Payload::Reward { minted, .. } => assert_eq!(minted, 100),
        _ => panic!("wrong payload"),
    }
}

#[test]
fn minting_after_decision_keeps_outcome() {
    let cfg = config();
    let mut s = world(&[(10, 100), (20, 30)]);
    let id = s.propose(&cfg, 10, Payload::Fund { receiver: 10, amount: 5 }, 0).unwrap();
    assert_eq!(s.vote(&cfg, id, 10, false, 1), Ok(Status::Rejected));
    s.ledger.mint(40, 1_000_000).unwrap();
    assert_eq!(s.vote(&cfg, id, 40, true, 2), Err(GovError::ProposalClosed));
    assert_eq!(s.proposal(id).unwrap().status, Status::Rejected);
}

#[test]
fn tie_at_threshold_rejects() {
    let cfg = Config { approval_percent: 50, ..config() };
    let mut s = world(&[(10, 100), (20, 75), (30, 25)]);
    let id = s.propose(&cfg, 10, Payload::Fund { receiver: 10, amount: 5 }, 0).unwrap();
    assert_eq!(s.vote(&cfg, id, 30, false, 1), Ok(Status::Open));
    // a margin of 50 in 100 cast stands exactly at the threshold
    assert_eq!(s.vote(&cfg, id, 20, true, 2), Ok(Status::Rejected));
}

#[test]
fn propose_checks_stake_and_payload() {
    let cfg = config();
    let mut s = world(&[(10, 100), (20, 5)]);
    assert_eq!(
        s.propose(&cfg, 20, Payload::Fund { receiver: 20, amount: 1 }, 0),
        Err(GovError::InsufficientStake)
    );
    assert_eq!(s.propose(&cfg, 10, release(b""), 0), Err(GovError::InvalidPayload));
    assert_eq!(s.proposals.len(), 0);
    assert_eq!(s.propose(&cfg, 10, release(b"code"), 7), Ok(0));
    assert_eq!(s.propose(&cfg, 10, release(b"code"), 7), Ok(1));
    let p = s.proposal(1).unwrap();
    assert_eq!(p.created_at, 7);
    assert_eq!(p.deadline, 107);
    assert_eq!(p.status, Status::Open);
    assert!(s.proposal(2).is_none());
}

#[test]
fn deadline_saturates() {
    let cfg = config();
    let mut s = world(&[(10, 100)]);
    let id = s.propose(&cfg, 10, Payload::Fund { receiver: 10, amount: 1 }, u64::MAX - 5).unwrap();
    assert_eq!(s.proposal(id).unwrap().deadline, u64::MAX);
}

#[test]
fn release_executes_and_schedules_upgrade() {
    let cfg = config();
    let mut s = world(&[(10, 100), (20, 1000)]);
    let id = s.propose(&cfg, 10, release(b"abc"), 0).unwrap();
    let expected = to_hex(&match &s.proposal(id).unwrap().payload {
        Payload::Release { hash, .. } => hash.clone(),
        _ => panic!("wrong payload"),
    });
    assert_eq!(
        String::from_utf8(expected).unwrap(),
        "ba7816bf8f01cfea414140de5dae2223b00361a396177a9cb410ff61f20015ad"
    );
    assert!(s.upgrade.is_none());
    assert_eq!(s.vote(&cfg, id, 20, true, 1), Ok(Status::Executed));
    assert_eq!(s.upgrade, Some(b"abc".to_vec()));
}

#[test]
fn digest_is_lowercase_hex_sha256() {
    assert_eq!(
        digest_text(b""),
        "e3b0c44298fc1c149afbf4c8996fb92427ae41e4649b934ca495991b7852b855"
    );
    assert_eq!(String::from_utf8(to_hex(&vec![0x00, 0xab, 0x9f])).unwrap(), "00ab9f");
}

#[test]
fn cancel_rules() {
    let cfg = config();
    let mut s = world(&[(10, 100), (20, 100)]);
    let id = s.propose(&cfg, 10, Payload::Fund { receiver: 10, amount: 1 }, 0).unwrap();
    assert_eq!(s.cancel(id, 20), Err(GovError::NotProposer));
    assert_eq!(s.cancel(9, 10), Err(GovError::ProposalNotFound));
    assert_eq!(s.cancel(id, 10), Ok(()));
    assert_eq!(s.proposal(id).unwrap().status, Status::Cancelled);
    assert_eq!(s.cancel(id, 10), Err(GovError::ProposalClosed));
    assert_eq!(s.vote(&cfg, id, 20, true, 1), Err(GovError::ProposalClosed));
}

#[test]
fn vote_after_deadline_expires() {
    let cfg = config();
    let mut s = world(&[(10, 100), (20, 100)]);
    let id = s.propose(&cfg, 10, Payload::Fund { receiver: 10, amount: 1 }, 0).unwrap();
    assert_eq!(s.vote(&cfg, 5, 20, true, 1), Err(GovError::ProposalNotFound));
    assert_eq!(s.vote(&cfg, id, 20, true, 100), Err(GovError::ProposalClosed));
    assert_eq!(s.proposal(id).unwrap().status, Status::Expired);
}

#[test]
fn sweep_expires_overdue_proposals() {
    let cfg = config();
    let mut s = world(&[(10, 100)]);
    let a = s.propose(&cfg, 10, Payload::Fund { receiver: 10, amount: 1 }, 0).unwrap();
    let b = s.propose(&cfg, 10, Payload::Fund { receiver: 10, amount: 1 }, 50).unwrap();
    s.cancel(a, 10).unwrap();
    let c = s.propose(&cfg, 10, Payload::Fund { receiver: 10, amount: 1 }, 0).unwrap();
    s.sweep_expired(120);
    assert_eq!(s.proposal(a).unwrap().status, Status::Cancelled);
    assert_eq!(s.proposal(b).unwrap().status, Status::Open);
    assert_eq!(s.proposal(c).unwrap().status, Status::Expired);
}

#[test]
fn list_page_most_recent_first() {
    let cfg = config();
    let mut s = world(&[(10, 100)]);
    for _ in 0..5 {
        s.propose(&cfg, 10, Payload::Fund { receiver: 10, amount: 1 }, 0).unwrap();
    }
    assert_eq!(s.list_page(0, 2), vec![4, 3]);
    assert_eq!(s.list_page(1, 2), vec![2, 1]);
    assert_eq!(s.list_page(2, 2), vec![0]);
    assert_eq!(s.list_page(3, 2), Vec::<u32>::new());
    assert_eq!(s.list_page(0, 0), Vec::<u32>::new());
}

#[test]
fn ledger_transfer_and_overflow() {
    let mut s = world(&[(10, 100)]);
    assert_eq!(s.ledger.transfer(10, 20, 101), Err(GovError::InsufficientFunds));
    assert_eq!(s.ledger.transfer(10, 20, 40), Ok(()));
    assert_eq!(s.ledger.balance_of(10), 60);
    assert_eq!(s.ledger.balance_of(20), 40);
    assert_eq!(s.ledger.mint(30, u64::MAX), Err(GovError::SupplyOverflow));
    assert_eq!(s.ledger.total_supply(), 100);
}

#[test]
fn republishing_discards_confirmations() {
    let cfg = config();
    let mut s = world(&[(10, 60), (20, 40)]);
    s.stalwarts.push(10);
    assert!(!s.set_emergency_release(20, b"B".to_vec()));
    assert!(!s.set_emergency_release(10, vec![]));
    assert!(s.set_emergency_release(10, b"B".to_vec()));
    assert_eq!(s.confirm_emergency_release(10, &digest_text(b"B")), Ok(()));
    assert_eq!(s.emergency_votes, vec![(10, 60)]);
    assert!(s.set_emergency_release(10, b"B2".to_vec()));
    assert!(s.emergency_votes.is_empty());
    assert_eq!(s.force_emergency_upgrade(&cfg), Err(GovError::SupermajorityNotReached));
    assert!(s.upgrade.is_none());
}

#[test]
fn emergency_confirmations_force_upgrade() {
    let cfg = config();
    let mut s = world(&[(10, 60), (20, 40), (30, 0)]);
    s.stalwarts.push(20);
    assert!(s.set_emergency_release(20, b"fix".to_vec()));
    assert_eq!(s.confirm_emergency_release(10, &digest_text(b"other")), Err(GovError::DigestMismatch));
    assert_eq!(
        s.confirm_emergency_release(10, &digest_text(b"fix").to_uppercase()),
        Err(GovError::DigestMismatch)
    );
    assert_eq!(s.confirm_emergency_release(30, &digest_text(b"fix")), Err(GovError::NoVotingPower));
    assert_eq!(s.confirm_emergency_release(20, &digest_text(b"fix")), Ok(()));
    // less than half of the supply
    assert_eq!(s.force_emergency_upgrade(&cfg), Err(GovError::SupermajorityNotReached));
    assert_eq!(s.confirm_emergency_release(10, &digest_text(b"fix")), Ok(()));
    assert_eq!(s.confirm_emergency_release(10, &digest_text(b"fix")), Ok(()));
    assert_eq!(s.emergency_votes.len(), 2);
    assert_eq!(s.force_emergency_upgrade(&cfg), Ok(()));
    assert_eq!(s.upgrade, Some(b"fix".to_vec()));
}

fn busy_world() -> State {
    let cfg = config();
    let mut s = world(&[(10, 100), (TREASURY, 200), (20, 1000), (30, 50)]);
    s.stalwarts.push(20);
    s.propose(&cfg, 10, release(b"binary"), 3).unwrap();
    let f = s.propose(&cfg, 10, Payload::Fund { receiver: 30, amount: 20 }, 4).unwrap();
    s.vote(&cfg, f, 30, false, 5).unwrap();
    let r = s.propose(&cfg, 10, Payload::Reward { receiver: 30, minted: 0 }, 4).unwrap();
    s.vote(&cfg, r, 20, true, 6).unwrap();
    s.set_emergency_release(20, b"urgent".to_vec());
    s.confirm_emergency_release(30, &digest_text(b"urgent")).unwrap();
    s
}

fn same_world(a: &State, b: &State) {
    assert_eq!(a.ledger.entries, b.ledger.entries);
    assert_eq!(a.treasury, b.treasury);
    assert_eq!(a.stalwarts, b.stalwarts);
    assert_eq!(a.emergency_binary, b.emergency_binary);
    assert_eq!(a.emergency_votes, b.emergency_votes);
    assert_eq!(a.upgrade, b.upgrade);
    assert_eq!(a.proposals.len(), b.proposals.len());
    for (p, q) in a.proposals.iter().zip(b.proposals.iter()) {
        assert_eq!(p.id, q.id);
        assert_eq!(p.proposer, q.proposer);
        assert_eq!(p.votes, q.votes);
        assert_eq!(p.status, q.status);
        assert_eq!(p.created_at, q.created_at);
        assert_eq!(p.deadline, q.deadline);
        assert_eq!(format!("{:?}", p.payload), format!("{:?}", q.payload));
    }
}

#[test]
fn snapshot_round_trip() {
    let s = busy_world();
    let bytes = serialize(&s);
    let back = restore(&bytes, 77).unwrap();
    same_world(&s, &back);
    assert_eq!(serialize(&back), bytes);
}

#[test]
fn restore_without_snapshot_starts_empty() {
    let s = restore(&vec![], 77).unwrap();
    assert_eq!(s.treasury, 77);
    assert!(s.ledger.entries.is_empty());
    assert!(s.proposals.is_empty());
    assert!(s.upgrade.is_none());
}

#[test]
fn restore_refuses_corrupt_snapshot() {
    let bytes = serialize(&busy_world());
    assert!(matches!(restore(&bytes[..bytes.len() - 1].to_vec(), 0), Err(GovError::CorruptSnapshot)));
    let mut longer = bytes.clone();
    longer.push(0);
    assert!(matches!(restore(&longer, 0), Err(GovError::CorruptSnapshot)));
    assert!(matches!(restore(&vec![1, 2, 3], 0), Err(GovError::CorruptSnapshot)));
    // two entries for one account break the ledger's invariant
    let mut dup = State::new(0);
    dup.ledger.entries = vec![(5, 1), (5, 2)];
    assert!(matches!(restore(&serialize(&dup), 0), Err(GovError::CorruptSnapshot)));
}

#[test]
fn backup_pages_reproduce_snapshot() {
    let bytes = serialize(&busy_world());
    let extent = bytes.len() as u64;
    for size in [1u64, 7, 64, 1000] {
        let mut joined = Vec::new();
        let mut page = 0;
        loop {
            let chunk = backup_chunk(&bytes, extent, page, size);
            if chunk.is_empty() {
                break;
            }
            assert!(chunk.len() as u64 <= size);
            joined.extend(chunk);
            page += 1;
        }
        assert_eq!(joined, bytes);
        assert!(backup_chunk(&bytes, extent, page + 3, size).is_empty());
        assert!(backup_chunk(&bytes, extent, u64::MAX, size).is_empty());
    }
}

#[test]
fn backup_page_uses_fixed_page_size() {
    let memory = vec![7u8; (BACKUP_PAGE_SIZE + 10) as usize];
    assert_eq!(backup_page(&memory, memory.len() as u64, 0).len() as u64, BACKUP_PAGE_SIZE);
    assert_eq!(backup_page(&memory, memory.len() as u64, 1), vec![7u8; 10]);
    assert!(backup_page(&memory, memory.len() as u64, 2).is_empty());
    assert_eq!(backup_page(&memory, 5, 0), vec![7u8; 5]);
}
