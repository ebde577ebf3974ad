//! The emergency path: stalwarts publish a binary, holders confirm its
//! digest, and a supermajority of the total supply forces the upgrade.

use vstd::prelude::*;
use vstd::string::StringSliceAdditionalSpecFns;
use crate::digest::{digest_hex, hex_of, sha256_of};
use crate::ledger::{balance_in, keys_unique, lemma_total_prefix, total_of};
use crate::proposals::Config;
use crate::state::{State, StateView};
use crate::GovError;

verus! {

/// The entries after `(k, v)` is recorded: it replaces `k`'s entry, or is added last.
pub open spec fn upsert(s: Seq<(u64, u64)>, k: u64, v: u64) -> Seq<(u64, u64)> {
    if exists|j: int| 0 <= j < s.len() && s[j].0 == k {
        s.map_values(|e: (u64, u64)| if e.0 == k { (k, v) } else { e })
    } else {
        s.push((k, v))
    }
}

/// How publishing an emergency binary changes the world.
pub open spec fn publish_step(o: StateView, n: StateView, r: bool, caller: u64, binary: Seq<u8>) -> bool {
    if binary.len() > 0 && o.stalwarts.contains(caller) {
        r && n == StateView { emergency_binary: binary, emergency_votes: Seq::empty(), ..o }
    } else {
        !r && n == o
    }
}

/// How a confirmation of the pending emergency binary changes the world.
pub open spec fn confirm_step(
    o: StateView,
    n: StateView,
    r: Result<(), GovError>,
    caller: u64,
    digest: Seq<u8>,
) -> bool {
    let w = balance_in(o.balances, caller);
    if w == 0 {
        r == Err::<(), GovError>(GovError::NoVotingPower) && n == o
    } else if o.emergency_binary.len() == 0 || digest != hex_of(sha256_of(o.emergency_binary)) {
        r == Err::<(), GovError>(GovError::DigestMismatch) && n == o
    } else if !(exists|j: int| 0 <= j < o.emergency_votes.len() && o.emergency_votes[j].0 == caller)
        && o.emergency_votes.len() == u32::MAX {
        r == Err::<(), GovError>(GovError::StoreFull) && n == o
    } else {
        &&& r == Ok::<(), GovError>(())
        &&& n == StateView {
            emergency_votes: upsert(o.emergency_votes, caller, w as u64),
            ..o
        }
    }
}

/// The confirmed weight strictly exceeds the configured share of the total supply.
pub open spec fn supermajority(confirmed: nat, supply: nat, cfg: Config) -> bool {
    confirmed * 100 > cfg.emergency_percent * supply
}

/// How forcing the emergency upgrade changes the world.
pub open spec fn force_step(o: StateView, n: StateView, r: Result<(), GovError>, cfg: Config) -> bool {
    if o.emergency_binary.len() > 0 && supermajority(
        total_of(o.emergency_votes),
        total_of(o.balances),
        cfg,
    ) {
        r == Ok::<(), GovError>(()) && n == StateView { upgrade: Some(o.emergency_binary), ..o }
    } else {
        r == Err::<(), GovError>(GovError::SupermajorityNotReached) && n == o
    }
}

/// Publishing a binary drops every confirmation of the one before it, so an
/// immediate attempt to force the upgrade falls short of the supermajority.
pub proof fn lemma_publish_discards_confirmations(
    o: StateView,
    n: StateView,
    caller: u64,
    binary: Seq<u8>,
    n2: StateView,
    r: Result<(), GovError>,
    cfg: Config,
)
    requires
        publish_step(o, n, true, caller, binary),
        force_step(n, n2, r, cfg),
    ensures
        n.emergency_votes.len() == 0,
        r == Err::<(), GovError>(GovError::SupermajorityNotReached),
        n2 == n,
{
    assert(total_of(n.emergency_votes) == 0);
}

proof fn lemma_sum_bound(s: Seq<(u64, u64)>)
    ensures
        total_of(s) <= s.len() * (u64::MAX as int),
    decreases s.len(),
{
    if s.len() > 0 {
        lemma_sum_bound(s.drop_last());
        assert((s.len() - 1) * (u64::MAX as int) + u64::MAX == s.len() * (u64::MAX as int))
            by (nonlinear_arith);
    }
}

impl State {
    /// Publishes `binary` as the pending emergency binary and drops every
    /// confirmation of the previous one; only a stalwart may, with a non-empty binary.
    pub fn set_emergency_release(&mut self, caller: u64, binary: Vec<u8>) -> (r: bool)
        requires
            old(self).wf(),
        ensures
            final(self).wf(),
            publish_step(old(self)@, final(self)@, r, caller, binary@),
    {
        if binary.len() == 0 {
            return false;
        }
        let mut k: usize = 0;
        let mut found = false;
        while k < self.stalwarts.len()
            invariant
                k <= self.stalwarts@.len(),
                found == exists|j: int| 0 <= j < k && self.stalwarts@[j] == caller,
            decreases self.stalwarts@.len() - k,
        {
            if self.stalwarts[k] == caller {
                found = true;
            }
            k = k + 1;
        }
        if !found {
            assert(!self.stalwarts@.contains(caller));
            return false;
        }
        self.emergency_binary = binary;
        self.emergency_votes = Vec::new();
        assert(self@.emergency_votes =~= Seq::<(u64, u64)>::empty());
        true
    }

    /// Records the caller's current balance as a confirmation of the pending
    /// emergency binary, if `digest` is the lowercase hexadecimal SHA-256 digest of it.
    pub fn confirm_emergency_release(&mut self, caller: u64, digest: &str) -> (r: Result<(), GovError>)
        requires
            old(self).wf(),
        ensures
            final(self).wf(),
            confirm_step(old(self)@, final(self)@, r, caller, digest.spec_bytes()),
    {
        let w = self.ledger.balance_of(caller);
        if w == 0 {
            return Err(GovError::NoVotingPower);
        }
        if self.emergency_binary.len() == 0 {
            return Err(GovError::DigestMismatch);
        }
        let expected = digest_hex(&self.emergency_binary);
        let given = digest.as_bytes();
        if given.len() != expected.len() {
            return Err(GovError::DigestMismatch);
        }
        let mut k: usize = 0;
        while k < given.len()
            invariant
                self@ == old(self)@,
                self.wf(),
                given@ == digest.spec_bytes(),
                expected@ == hex_of(sha256_of(self.emergency_binary@)),
                w as nat == balance_in(self@.balances, caller),
                w > 0,
                self.emergency_binary@.len() > 0,
                given@.len() == expected@.len(),
                k <= given@.len(),
                forall|j: int| 0 <= j < k ==> given@[j] == expected@[j],
            decreases given@.len() - k,
        {
            if given[k] != expected[k] {
                assert(given@[k as int] != expected@[k as int]);
                assert(given@ != expected@);
                return Err(GovError::DigestMismatch);
            }
            k = k + 1;
        }
        assert(given@ =~= expected@);
        let ghost s = self.emergency_votes@;
        let mut j: usize = 0;
        while j < self.emergency_votes.len()
            invariant
                self@ == old(self)@,
                self.wf(),
                s == self.emergency_votes@,
                digest.spec_bytes() == hex_of(sha256_of(self.emergency_binary@)),
                w as nat == balance_in(self@.balances, caller),
                w > 0,
                self.emergency_binary@.len() > 0,
                j <= s.len(),
                forall|t: int| 0 <= t < j ==> s[t].0 != caller,
            decreases s.len() - j,
        {
            if self.emergency_votes[j].0 == caller {
                self.emergency_votes.set(j, (caller, w));
                assert(s[j as int].0 == caller);
                assert(exists|t: int| 0 <= t < s.len() && s[t].0 == caller);
                assert(self.emergency_votes@ =~= upsert(s, caller, w)) by {
                    assert(keys_unique(s));
                }
                return Ok(());
            }
            j = j + 1;
        }
        if self.emergency_votes.len() >= u32::MAX as usize {
            return Err(GovError::StoreFull);
        }
        self.emergency_votes.push((caller, w));
        assert(self.emergency_votes@ =~= upsert(s, caller, w));
        Ok(())
    }

    /// Schedules the pending emergency binary for installation when its
    /// confirmations hold more than the configured share of the total supply.
    pub fn force_emergency_upgrade(&mut self, cfg: &Config) -> (r: Result<(), GovError>)
        requires
            old(self).wf(),
            cfg.wf(),
        ensures
            final(self).wf(),
            force_step(old(self)@, final(self)@, r, *cfg),
    {
        if self.emergency_binary.len() == 0 {
            return Err(GovError::SupermajorityNotReached);
        }
        let mut confirmed: u128 = 0;
        let mut k: usize = 0;
        let ghost s = self.emergency_votes@;
        proof {
            lemma_sum_bound(s);
            assert(s.len() * (u64::MAX as int) <= u32::MAX * (u64::MAX as int)) by (nonlinear_arith)
                requires s.len() <= u32::MAX;
        }
        while k < self.emergency_votes.len()
            invariant
                s == self.emergency_votes@,
                s.len() <= u32::MAX,
                k <= s.len(),
                confirmed == total_of(s.take(k as int)),
                total_of(s) <= u32::MAX * (u64::MAX as int),
            decreases s.len() - k,
        {
            proof {
                assert(s.take(k + 1).drop_last() =~= s.take(k as int));
                lemma_total_prefix(s, k + 1);
            }
            confirmed = confirmed + self.emergency_votes[k].1 as u128;
            k = k + 1;
        }
        assert(s.take(k as int) =~= s);
        let supply = self.ledger.total_supply();
        proof {
            assert(cfg.emergency_percent * supply <= 100 * u64::MAX) by (nonlinear_arith)
                requires cfg.emergency_percent <= 100, supply <= u64::MAX;
        }
        if confirmed * 100 <= cfg.emergency_percent as u128 * supply as u128 {
            return Err(GovError::SupermajorityNotReached);
        }
        let copy = self.emergency_binary.clone();
        assert(copy@ =~= self.emergency_binary@);
        self.upgrade = Some(copy);
        Ok(())
    }
}

} // verus!
