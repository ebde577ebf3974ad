//! The snapshot format that carries the world across a code replacement:
//! little-endian words, length-prefixed byte strings and lists.

use vstd::prelude::*;
use crate::GovError;
use crate::ledger::{keys_unique, lemma_total_prefix, total_of, Ledger};
use crate::state::{opt_view, state_wf, State, StateView};
use crate::proposals::{voters_unique, Payload, PayloadView, Proposal, ProposalView, Status, Vote};
use vstd::bytes::{
    lemma_auto_spec_u64_to_from_le_bytes, spec_u64_from_le_bytes, spec_u64_to_le_bytes,
    u64_from_le_bytes, u64_to_le_bytes,
};

verus! {

/// A word: eight bytes, least significant first.
pub open spec fn enc_u64(x: u64) -> Seq<u8> {
    spec_u64_to_le_bytes(x)
}

/// A byte string: its length, then its bytes.
pub open spec fn enc_bytes(b: Seq<u8>) -> Seq<u8> {
    enc_u64(b.len() as u64) + b
}

pub open spec fn enc_pair(e: (u64, u64)) -> Seq<u8> {
    enc_u64(e.0) + enc_u64(e.1)
}

/// The items of a list, each encoded by `f`, one after the other.
pub open spec fn body<A>(s: Seq<A>, f: spec_fn(A) -> Seq<u8>) -> Seq<u8>
    decreases s.len(),
{
    if s.len() == 0 {
        Seq::empty()
    } else {
        body(s.drop_last(), f) + f(s.last())
    }
}

/// A list: its length, then its items.
pub open spec fn enc_list<A>(s: Seq<A>, f: spec_fn(A) -> Seq<u8>) -> Seq<u8> {
    enc_u64(s.len() as u64) + body(s, f)
}

pub open spec fn pair_fn() -> spec_fn((u64, u64)) -> Seq<u8> {
    |e: (u64, u64)| enc_pair(e)
}

pub open spec fn word_fn() -> spec_fn(u64) -> Seq<u8> {
    |x: u64| enc_u64(x)
}

pub open spec fn enc_pairs(s: Seq<(u64, u64)>) -> Seq<u8> {
    enc_list(s, pair_fn())
}

pub open spec fn enc_vote(v: Vote) -> Seq<u8> {
    enc_u64(v.voter) + (enc_u64(if v.approve { 1 } else { 0 }) + enc_u64(v.weight))
}

pub open spec fn vote_fn() -> spec_fn(Vote) -> Seq<u8> {
    |v: Vote| enc_vote(v)
}

pub open spec fn status_code(s: Status) -> u64 {
    match s {
        Status::Open => 0,
        Status::Executed => 1,
        Status::Rejected => 2,
        Status::Cancelled => 3,
        Status::Expired => 4,
    }
}

/// A payload: a tag word for its kind, then its fields.
pub open spec fn enc_payload(p: PayloadView) -> Seq<u8> {
    match p {
        PayloadView::Release { commit, binary, hash } => enc_u64(0) + (enc_bytes(commit) + (
        enc_bytes(binary) + enc_bytes(hash))),
        PayloadView::Reward { receiver, minted } => enc_u64(1) + (enc_u64(receiver) + enc_u64(
            minted,
        )),
        PayloadView::Fund { receiver, amount } => enc_u64(2) + (enc_u64(receiver) + enc_u64(
            amount,
        )),
    }
}

pub open spec fn enc_proposal(p: ProposalView) -> Seq<u8> {
    enc_u64(p.id as u64) + (enc_u64(p.proposer) + (enc_payload(p.payload) + (enc_list(
        p.votes,
        vote_fn(),
    ) + (enc_u64(status_code(p.status)) + (enc_u64(p.created_at) + enc_u64(p.deadline))))))
}

pub open spec fn proposal_fn() -> spec_fn(ProposalView) -> Seq<u8> {
    |p: ProposalView| enc_proposal(p)
}

/// Whether a binary is scheduled: a flag word, then the binary if there is one.
pub open spec fn enc_upgrade(u: Option<Seq<u8>>) -> Seq<u8> {
    match u {
        None => enc_u64(0),
        Some(b) => enc_u64(1) + enc_bytes(b),
    }
}

/// The snapshot of the whole world: each part in turn.
pub open spec fn enc_state(s: StateView) -> Seq<u8> {
    enc_pairs(s.balances) + (enc_u64(s.treasury) + (enc_list(s.stalwarts, word_fn()) + (enc_list(
        s.proposals,
        proposal_fn(),
    ) + (enc_bytes(s.emergency_binary) + (enc_pairs(s.emergency_votes) + enc_upgrade(
        s.upgrade,
    ))))))
}

pub proof fn lemma_fn_lens()
    ensures
        forall|x: u64| #[trigger] word_fn()(x).len() == 8,
        forall|x: Vote| #[trigger] vote_fn()(x).len() == 24,
        forall|x: ProposalView| #[trigger] proposal_fn()(x).len() >= 8,
        forall|x: u64| #[trigger] enc_u64(x).len() == 8,
{
    lemma_auto_spec_u64_to_from_le_bytes();
    assert forall|x: Vote| #[trigger] vote_fn()(x).len() == 24 by {
        assert(enc_u64(x.voter).len() == 8);
        assert(enc_u64(x.weight).len() == 8);
        assert(enc_u64(if x.approve { 1 } else { 0 }).len() == 8);
    }
    assert forall|x: ProposalView| #[trigger] proposal_fn()(x).len() >= 8 by {
        assert(enc_u64(x.id as u64).len() == 8);
    }
    assert forall|x: u64| #[trigger] word_fn()(x).len() == 8 by {
        assert(enc_u64(x).len() == 8);
    }
}

/// A word and what follows it.
pub proof fn lemma_word_then(b: Seq<u8>, pos: int, x: u64, rest: Seq<u8>)
    requires
        at(b, pos, enc_u64(x) + rest),
    ensures
        at(b, pos, enc_u64(x)),
        at(b, pos + 8, rest),
        (enc_u64(x) + rest).len() == 8 + rest.len(),
{
    lemma_auto_spec_u64_to_from_le_bytes();
    assert(enc_u64(x).len() == 8);
    lemma_at_split(b, pos, enc_u64(x), rest);
}

/// `e` stands in `b` from position `pos` on.
pub open spec fn at(b: Seq<u8>, pos: int, e: Seq<u8>) -> bool {
    0 <= pos && pos + e.len() <= b.len() && b.subrange(pos, pos + e.len()) == e
}

pub proof fn lemma_at_take(b: Seq<u8>, pos: int, e: Seq<u8>, m: int)
    requires
        at(b, pos, e),
        0 <= m <= e.len(),
    ensures
        at(b, pos, e.take(m)),
{
    assert(b.subrange(pos, pos + m) =~= b.subrange(pos, pos + e.len()).take(m));
}

pub proof fn lemma_body_step<A>(s: Seq<A>, f: spec_fn(A) -> Seq<u8>, k: int)
    requires
        0 <= k < s.len(),
    ensures
        body(s.take(k + 1), f) == body(s.take(k), f) + f(s[k]),
{
    assert(s.take(k + 1).drop_last() =~= s.take(k));
}

pub proof fn lemma_body_prefix<A>(s: Seq<A>, f: spec_fn(A) -> Seq<u8>, k: int)
    requires
        0 <= k <= s.len(),
    ensures
        body(s.take(k), f).len() <= body(s, f).len(),
        body(s.take(k), f) == body(s, f).take(body(s.take(k), f).len() as int),
    decreases s.len() - k,
{
    if k < s.len() {
        lemma_body_prefix(s, f, k + 1);
        lemma_body_step(s, f, k);
        let p = body(s.take(k), f);
        let q = body(s.take(k + 1), f);
        assert(q.take(p.len() as int) =~= p);
        assert(body(s, f).take(p.len() as int) =~= q.take(p.len() as int));
    } else {
        assert(s.take(k) =~= s);
        assert(body(s, f).take(body(s, f).len() as int) =~= body(s, f));
    }
}

/// Where item `k` of a list stands, given that the list's items stand at `pos`.
pub proof fn lemma_item_at<A>(b: Seq<u8>, pos: int, s: Seq<A>, f: spec_fn(A) -> Seq<u8>, k: int)
    requires
        at(b, pos, body(s, f)),
        0 <= k < s.len(),
    ensures
        at(b, pos + body(s.take(k), f).len(), f(s[k])),
        body(s.take(k + 1), f).len() == body(s.take(k), f).len() + f(s[k]).len(),
{
    lemma_body_prefix(s, f, k + 1);
    lemma_body_step(s, f, k);
    lemma_at_take(b, pos, body(s, f), body(s.take(k + 1), f).len() as int);
    lemma_at_split(b, pos, body(s.take(k), f), f(s[k]));
}

pub proof fn lemma_at_join(b: Seq<u8>, pos: int, e1: Seq<u8>, e2: Seq<u8>)
    requires
        at(b, pos, e1),
        at(b, pos + e1.len(), e2),
    ensures
        at(b, pos, e1 + e2),
{
    assert(b.subrange(pos, pos + (e1 + e2).len()) =~= b.subrange(pos, pos + e1.len()) + b.subrange(
        pos + e1.len(),
        pos + e1.len() + e2.len(),
    ));
}

pub proof fn lemma_at_split(b: Seq<u8>, pos: int, e1: Seq<u8>, e2: Seq<u8>)
    requires
        at(b, pos, e1 + e2),
    ensures
        at(b, pos, e1),
        at(b, pos + e1.len(), e2),
{
    assert(b.subrange(pos, pos + e1.len()) =~= (e1 + e2).subrange(0, e1.len() as int));
    assert((e1 + e2).subrange(0, e1.len() as int) =~= e1);
    let whole = b.subrange(pos, pos + e1.len() + e2.len());
    assert(b.subrange(pos + e1.len(), pos + e1.len() + e2.len()) =~= whole.subrange(
        e1.len() as int,
        (e1.len() + e2.len()) as int,
    ));
    assert((e1 + e2).subrange(e1.len() as int, (e1.len() + e2.len()) as int) =~= e2);
}

/// Appends the bytes of `b` to `out`.
fn put_slice(out: &mut Vec<u8>, b: &[u8])
    ensures
        final(out)@ == old(out)@ + b@,
{
    let ghost start = out@;
    let mut k: usize = 0;
    while k < b.len()
        invariant
            k <= b@.len(),
            out@ == start + b@.take(k as int),
        decreases b@.len() - k,
    {
        out.push(b[k]);
        k = k + 1;
        assert(out@ =~= start + b@.take(k as int));
    }
    assert(b@.take(k as int) =~= b@);
}

fn put_u64(out: &mut Vec<u8>, x: u64)
    ensures
        final(out)@ == old(out)@ + enc_u64(x),
{
    let b = u64_to_le_bytes(x);
    put_slice(out, b.as_slice());
}

fn put_bytes(out: &mut Vec<u8>, b: &Vec<u8>)
    ensures
        final(out)@ == old(out)@ + enc_bytes(b@),
{
    put_u64(out, b.len() as u64);
    put_slice(out, b.as_slice());
    assert(out@ =~= old(out)@ + enc_bytes(b@));
}

fn put_pairs(out: &mut Vec<u8>, s: &Vec<(u64, u64)>)
    ensures
        final(out)@ == old(out)@ + enc_pairs(s@),
{
    let ghost start = out@;
    put_u64(out, s.len() as u64);
    let mut k: usize = 0;
    while k < s.len()
        invariant
            k <= s@.len(),
            out@ == start + enc_u64(s@.len() as u64) + body(s@.take(k as int), pair_fn()),
        decreases s@.len() - k,
    {
        proof {
            lemma_body_step(s@, pair_fn(), k as int);
        }
        put_u64(out, s[k].0);
        put_u64(out, s[k].1);
        k = k + 1;
        assert(out@ =~= start + enc_u64(s@.len() as u64) + body(s@.take(k as int), pair_fn()));
    }
    assert(s@.take(k as int) =~= s@);
    assert(out@ =~= start + enc_pairs(s@));
}

/// Reads the word at `pos`.
fn get_u64(b: &Vec<u8>, pos: usize) -> (r: Option<u64>)
    ensures
        forall|v: u64| at(b@, pos as int, #[trigger] enc_u64(v)) ==> r == Some(v),
        r is Some ==> pos + 8 <= b@.len(),
        r matches Some(x) ==> at(b@, pos as int, enc_u64(x)),
{
    proof {
        lemma_auto_spec_u64_to_from_le_bytes();
    }
    if pos > b.len() || b.len() - pos < 8 {
        return None;
    }
    let mut w: Vec<u8> = Vec::new();
    let mut k: usize = 0;
    while k < 8
        invariant
            pos + 8 <= b@.len() <= usize::MAX,
            k <= 8,
            w@ == b@.subrange(pos as int, pos + k),
        decreases 8 - k,
    {
        w.push(b[pos + k]);
        k = k + 1;
        assert(w@ =~= b@.subrange(pos as int, pos + k));
    }
    let x = u64_from_le_bytes(w.as_slice());
    proof {
        assert(spec_u64_to_le_bytes(spec_u64_from_le_bytes(w@)) == w@);
        assert forall|v: u64| at(b@, pos as int, #[trigger] enc_u64(v)) implies x == v by {
            assert(enc_u64(v).len() == 8);
        }
    }
    Some(x)
}

/// Reads the byte string at `pos`; also gives where it ends.
fn get_bytes(b: &Vec<u8>, pos: usize) -> (r: Option<(Vec<u8>, usize)>)
    ensures
        forall|v: Seq<u8>|
            at(b@, pos as int, #[trigger] enc_bytes(v)) ==> (r matches Some((x, end)) && x@ == v
                && end == pos + enc_bytes(v).len()),
        r matches Some((x, end)) ==> pos <= end <= b@.len(),
        r matches Some((x, end)) ==> at(b@, pos as int, enc_bytes(x@)) && end == pos + enc_bytes(
            x@,
        ).len(),
{
    proof {
        lemma_auto_spec_u64_to_from_le_bytes();
    }
    let n = match get_u64(b, pos) {
        Some(n) => n,
        None => {
            proof {
                assert forall|v: Seq<u8>| !at(b@, pos as int, #[trigger] enc_bytes(v)) by {
                    if at(b@, pos as int, enc_bytes(v)) {
                        lemma_at_split(b@, pos as int, enc_u64(v.len() as u64), v);
                    }
                }
            }
            return None;
        },
    };
    if pos > b.len() || b.len() - pos < 8 || ((b.len() - pos - 8) as u64) < n {
        proof {
            assert forall|v: Seq<u8>| !at(b@, pos as int, #[trigger] enc_bytes(v)) by {
                if at(b@, pos as int, enc_bytes(v)) {
                    lemma_at_split(b@, pos as int, enc_u64(v.len() as u64), v);
                    assert(enc_u64(v.len() as u64).len() == 8);
                    assert(n == v.len() as u64);
                }
            }
        }
        return None;
    }
    let start = pos + 8;
    let end = start + n as usize;
    let mut x: Vec<u8> = Vec::new();
    let mut k: usize = start;
    while k < end
        invariant
            start <= k <= end <= b@.len(),
            x@ == b@.subrange(start as int, k as int),
        decreases end - k,
    {
        x.push(b[k]);
        k = k + 1;
        assert(x@ =~= b@.subrange(start as int, k as int));
    }
    proof {
        assert forall|v: Seq<u8>| at(b@, pos as int, #[trigger] enc_bytes(v)) implies x@ == v
            && end == pos + enc_bytes(v).len() by {
            lemma_at_split(b@, pos as int, enc_u64(v.len() as u64), v);
            assert(enc_u64(v.len() as u64).len() == 8);
        }
        assert(x@.len() as u64 == n);
        lemma_at_join(b@, pos as int, enc_u64(n), x@);
    }
    Some((x, end))
}


pub proof fn lemma_body_len<A>(s: Seq<A>, f: spec_fn(A) -> Seq<u8>)
    requires
        forall|x: A| #[trigger] f(x).len() >= 1,
    ensures
        body(s, f).len() >= s.len(),
    decreases s.len(),
{
    if s.len() > 0 {
        lemma_body_len(s.drop_last(), f);
    }
}

pub proof fn lemma_pair_len()
    ensures
        forall|x: (u64, u64)| #[trigger] pair_fn()(x).len() == 16,
{
    lemma_auto_spec_u64_to_from_le_bytes();
    assert forall|x: (u64, u64)| #[trigger] pair_fn()(x).len() == 16 by {
        assert(enc_u64(x.0).len() == 8);
        assert(enc_u64(x.1).len() == 8);
    }
}

/// Where item `k` of an encoded list stands, given that the list stands at `pos`.
pub proof fn lemma_list_item<A>(b: Seq<u8>, pos: int, s: Seq<A>, f: spec_fn(A) -> Seq<u8>, k: int)
    requires
        at(b, pos, enc_list(s, f)),
        0 <= k < s.len(),
    ensures
        at(b, pos + 8 + body(s.take(k), f).len(), f(s[k])),
        body(s.take(k + 1), f).len() == body(s.take(k), f).len() + f(s[k]).len(),
{
    lemma_auto_spec_u64_to_from_le_bytes();
    assert(enc_u64(s.len() as u64).len() == 8);
    lemma_at_split(b, pos, enc_u64(s.len() as u64), body(s, f));
    lemma_item_at(b, pos + 8, s, f, k);
}

/// The list's length word stands at `pos`, and the whole list ends after its items.
pub proof fn lemma_list_head<A>(b: Seq<u8>, pos: int, s: Seq<A>, f: spec_fn(A) -> Seq<u8>)
    requires
        at(b, pos, enc_list(s, f)),
        forall|x: A| #[trigger] f(x).len() >= 1,
        b.len() <= u64::MAX,
    ensures
        at(b, pos, enc_u64(s.len() as u64)),
        enc_list(s, f).len() == 8 + body(s, f).len(),
        s.take(s.len() as int) == s,
        s.len() <= b.len(),
        s.len() as u64 == s.len(),
{
    lemma_auto_spec_u64_to_from_le_bytes();
    lemma_body_len(s, f);
    assert(enc_u64(s.len() as u64).len() == 8);
    lemma_at_split(b, pos, enc_u64(s.len() as u64), body(s, f));
    assert(s.take(s.len() as int) =~= s);
}

fn get_pairs(b: &Vec<u8>, pos: usize) -> (r: Option<(Vec<(u64, u64)>, usize)>)
    ensures
        forall|v: Seq<(u64, u64)>|
            at(b@, pos as int, #[trigger] enc_pairs(v)) ==> (r matches Some((x, end)) && x@ == v
                && end == pos + enc_pairs(v).len()),
        r matches Some((x, end)) ==> pos <= end <= b@.len(),
        r matches Some((x, end)) ==> at(b@, pos as int, enc_pairs(x@)) && end == pos + enc_pairs(
            x@,
        ).len(),
{
    let blen = b.len();
    proof {
        lemma_pair_len();
        assert(blen <= u64::MAX);
    }
    let n = match get_u64(b, pos) {
        Some(n) => n,
        None => {
            proof {
                assert forall|v: Seq<(u64, u64)>| !at(b@, pos as int, #[trigger] enc_pairs(v)) by {
                    if at(b@, pos as int, enc_pairs(v)) {
                        lemma_list_head(b@, pos as int, v, pair_fn());
                    }
                }
            }
            return None;
        },
    };
    let mut out: Vec<(u64, u64)> = Vec::new();
    let mut cur: usize = pos + 8;
    let mut k: u64 = 0;
    proof {
        assert(body(out@, pair_fn()) =~= Seq::<u8>::empty());
        assert(b@.subrange(cur as int, cur as int) =~= Seq::<u8>::empty());
        assert forall|v: Seq<(u64, u64)>| at(b@, pos as int, #[trigger] enc_pairs(v)) implies n
            == v.len() && out@ == v.take(0) && cur == pos + 8 + body(v.take(0), pair_fn()).len() by {
            lemma_list_head(b@, pos as int, v, pair_fn());
            assert(v.take(0) =~= Seq::<(u64, u64)>::empty());
        }
    }
    while k < n
        invariant
            pos + 8 <= cur <= b@.len(),
            blen == b@.len(),
            forall|x: (u64, u64)| #[trigger] pair_fn()(x).len() == 16,
            k <= n,
            out@.len() == k,
            at(b@, pos as int, enc_u64(n)),
            at(b@, pos + 8, body(out@, pair_fn())),
            cur == pos + 8 + body(out@, pair_fn()).len(),
            forall|v: Seq<(u64, u64)>|
                at(b@, pos as int, #[trigger] enc_pairs(v)) ==> n == v.len() && out@ == v.take(
                    k as int,
                ) && cur == pos + 8 + body(v.take(k as int), pair_fn()).len(),
        decreases n - k,
    {
        let x = match get_u64(b, cur) {
            Some(x) => x,
            None => {
                proof {
                    assert forall|v: Seq<(u64, u64)>| !at(b@, pos as int, #[trigger] enc_pairs(v)) by {
                        if at(b@, pos as int, enc_pairs(v)) {
                            lemma_list_item(b@, pos as int, v, pair_fn(), k as int);
                            lemma_at_split(b@, cur as int, enc_u64(v[k as int].0), enc_u64(v[k as int].1));
                        }
                    }
                }
                return None;
            },
        };
        let y = match get_u64(b, cur + 8) {
            Some(y) => y,
            None => {
                proof {
                    assert forall|v: Seq<(u64, u64)>| !at(b@, pos as int, #[trigger] enc_pairs(v)) by {
                        if at(b@, pos as int, enc_pairs(v)) {
                            lemma_list_item(b@, pos as int, v, pair_fn(), k as int);
                            lemma_auto_spec_u64_to_from_le_bytes();
                            lemma_at_split(b@, cur as int, enc_u64(v[k as int].0), enc_u64(v[k as int].1));
                        }
                    }
                }
                return None;
            },
        };
        let ghost before = out@;
        out.push((x, y));
        proof {
            assert(out@.drop_last() =~= before);
            lemma_auto_spec_u64_to_from_le_bytes();
            lemma_at_join(b@, cur as int, enc_u64(x), enc_u64(y));
            assert(pair_fn()((x, y)) == enc_u64(x) + enc_u64(y));
            lemma_at_join(b@, pos + 8, body(before, pair_fn()), pair_fn()((x, y)));
            assert forall|v: Seq<(u64, u64)>| at(b@, pos as int, #[trigger] enc_pairs(v)) implies n
                == v.len() && out@ == v.take(k + 1) && cur + 16 == pos + 8 + body(
                v.take(k + 1),
                pair_fn(),
            ).len() by {
                lemma_list_item(b@, pos as int, v, pair_fn(), k as int);
                lemma_auto_spec_u64_to_from_le_bytes();
                lemma_at_split(b@, cur as int, enc_u64(v[k as int].0), enc_u64(v[k as int].1));
                assert(out@ =~= v.take(k + 1));
            }
        }
        cur = cur + 16;
        k = k + 1;
    }
    proof {
        assert forall|v: Seq<(u64, u64)>| at(b@, pos as int, #[trigger] enc_pairs(v)) implies out@
            == v && cur == pos + enc_pairs(v).len() by {
            lemma_list_head(b@, pos as int, v, pair_fn());
        }
    }
    proof {
        lemma_auto_spec_u64_to_from_le_bytes();
        assert(enc_u64(n).len() == 8);
        lemma_at_join(b@, pos as int, enc_u64(n), body(out@, pair_fn()));
    }
    Some((out, cur))
}


/// Reads the word at `pos`; also gives where it ends.
fn get_word(b: &Vec<u8>, pos: usize) -> (r: Option<(u64, usize)>)
    ensures
        forall|v: u64| at(b@, pos as int, #[trigger] word_fn()(v)) ==> r == Some((v, (pos + 8) as usize)),
        r matches Some((x, end)) ==> pos <= end <= b@.len(),
        r matches Some((x, end)) ==> at(b@, pos as int, word_fn()(x)) && end == pos + word_fn()(x).len(),
{
    let blen = b.len();
    proof {
        lemma_fn_lens();
    }
    match get_u64(b, pos) {
        Some(x) => Some((x, pos + 8)),
        None => None,
    }
}

fn get_vote(b: &Vec<u8>, pos: usize) -> (r: Option<(Vote, usize)>)
    ensures
        forall|v: Vote| at(b@, pos as int, #[trigger] vote_fn()(v)) ==> r == Some((v, (pos + 24) as usize)),
        r matches Some((x, end)) ==> pos <= end <= b@.len(),
        r matches Some((x, end)) ==> at(b@, pos as int, vote_fn()(x)) && end == pos + vote_fn()(x).len(),
{
    let blen = b.len();
    proof {
        assert forall|v: Vote| at(b@, pos as int, #[trigger] vote_fn()(v)) implies at(
            b@,
            pos as int,
            enc_u64(v.voter),
        ) && at(b@, pos + 8, enc_u64(if v.approve { 1 } else { 0 })) && at(
            b@,
            pos + 16,
            enc_u64(v.weight),
        ) by {
            lemma_word_then(b@, pos as int, v.voter, enc_u64(if v.approve { 1 } else { 0 }) + enc_u64(v.weight));
            lemma_word_then(b@, pos + 8, if v.approve { 1 } else { 0 }, enc_u64(v.weight));
        }
    }
    let voter = match get_u64(b, pos) {
        Some(x) => x,
        None => return None,
    };
    let flag = match get_u64(b, pos + 8) {
        Some(x) => x,
        None => return None,
    };
    let weight = match get_u64(b, pos + 16) {
        Some(x) => x,
        None => return None,
    };
    if flag > 1 {
        return None;
    }
    let x = Vote { voter, approve: flag == 1, weight };
    proof {
        lemma_fn_lens();
        assert(enc_u64(if x.approve { 1 } else { 0 }) == enc_u64(flag));
        lemma_at_join(b@, pos + 8, enc_u64(flag), enc_u64(weight));
        lemma_at_join(b@, pos as int, enc_u64(voter), enc_u64(flag) + enc_u64(weight));
    }
    Some((x, pos + 24))
}

/// Reads a list of words.
fn get_words(b: &Vec<u8>, pos: usize) -> (r: Option<(Vec<u64>, usize)>)
    ensures
        forall|v: Seq<u64>|
            at(b@, pos as int, #[trigger] enc_list(v, word_fn())) ==> (r matches Some((x, end)) && x@ == v
                && end == pos + enc_list(v, word_fn()).len()),
        r matches Some((x, end)) ==> pos <= end <= b@.len(),
        r matches Some((x, end)) ==> at(b@, pos as int, enc_list(x@, word_fn())) && end == pos
            + enc_list(x@, word_fn()).len(),
{
    let blen = b.len();
    proof {
        lemma_fn_lens();
        assert(blen <= u64::MAX);
        assert forall|v: Seq<u64>| at(b@, pos as int, #[trigger] enc_list(v, word_fn())) implies at(
            b@,
            pos as int,
            enc_u64(v.len() as u64),
        ) && v.len() as u64 == v.len() && enc_list(v, word_fn()).len() == 8 + body(v, word_fn()).len() by {
            lemma_list_head(b@, pos as int, v, word_fn());
        }
    }
    let n = match get_u64(b, pos) {
        Some(n) => n,
        None => return None,
    };
    let mut out: Vec<u64> = Vec::new();
    let mut cur: usize = pos + 8;
    let mut k: u64 = 0;
    proof {
        assert(body(out@, word_fn()) =~= Seq::<u8>::empty());
        assert(b@.subrange(cur as int, cur as int) =~= Seq::<u8>::empty());
        assert forall|v: Seq<u64>| at(b@, pos as int, #[trigger] enc_list(v, word_fn())) implies n
            == v.len() && out@ == v.take(0) && cur == pos + 8 + body(v.take(0), word_fn()).len() by {
            assert(v.take(0) =~= Seq::<u64>::empty());
            assert(out@ =~= Seq::<u64>::empty());
        }
    }
    while k < n
        invariant
            pos + 8 <= cur <= b@.len(),
            blen == b@.len(),
            forall|x: u64| #[trigger] word_fn()(x).len() == 8,
            k <= n,
            out@.len() == k,
            at(b@, pos as int, enc_u64(n)),
            at(b@, pos + 8, body(out@, word_fn())),
            cur == pos + 8 + body(out@, word_fn()).len(),
            forall|v: Seq<u64>|
                at(b@, pos as int, #[trigger] enc_list(v, word_fn())) ==> n == v.len() && out@ == v.take(
                    k as int,
                ) && cur == pos + 8 + body(v.take(k as int), word_fn()).len(),
        decreases n - k,
    {
        proof {
            assert forall|v: Seq<u64>| at(b@, pos as int, #[trigger] enc_list(v, word_fn())) implies at(
                b@,
                cur as int,
                word_fn()(v[k as int]),
            ) && body(v.take(k + 1), word_fn()).len() == body(v.take(k as int), word_fn()).len() + word_fn()(
                v[k as int],
            ).len() by {
                lemma_list_item(b@, pos as int, v, word_fn(), k as int);
            }
        }
        let (x, next) = match get_word(b, cur) {
            Some(p) => p,
            None => return None,
        };
        let ghost before = out@;
        out.push(x);
        proof {
            assert(out@.drop_last() =~= before);
            assert(out@.last() == x);
            lemma_at_join(b@, pos + 8, body(before, word_fn()), word_fn()(x));
            assert forall|v: Seq<u64>| at(b@, pos as int, #[trigger] enc_list(v, word_fn())) implies n
                == v.len() && out@ == v.take(k + 1) && next == pos + 8 + body(
                v.take(k + 1),
                word_fn(),
            ).len() by {
                assert(out@ =~= v.take(k + 1));
            }
        }
        cur = next;
        k = k + 1;
    }
    proof {
        assert forall|v: Seq<u64>| at(b@, pos as int, #[trigger] enc_list(v, word_fn())) implies out@
            == v && cur == pos + enc_list(v, word_fn()).len() by {
            lemma_list_head(b@, pos as int, v, word_fn());
        }
    }
    proof {
        lemma_at_join(b@, pos as int, enc_u64(n), body(out@, word_fn()));
        assert(enc_u64(n).len() == 8);
    }
    Some((out, cur))
}

/// Reads a list of votes.
fn get_votes(b: &Vec<u8>, pos: usize) -> (r: Option<(Vec<Vote>, usize)>)
    ensures
        forall|v: Seq<Vote>|
            at(b@, pos as int, #[trigger] enc_list(v, vote_fn())) ==> (r matches Some((x, end)) && x@ == v
                && end == pos + enc_list(v, vote_fn()).len()),
        r matches Some((x, end)) ==> pos <= end <= b@.len(),
        r matches Some((x, end)) ==> at(b@, pos as int, enc_list(x@, vote_fn())) && end == pos
            + enc_list(x@, vote_fn()).len(),
{
    let blen = b.len();
    proof {
        lemma_fn_lens();
        assert(blen <= u64::MAX);
        assert forall|v: Seq<Vote>| at(b@, pos as int, #[trigger] enc_list(v, vote_fn())) implies at(
            b@,
            pos as int,
            enc_u64(v.len() as u64),
        ) && v.len() as u64 == v.len() && enc_list(v, vote_fn()).len() == 8 + body(v, vote_fn()).len() by {
            lemma_list_head(b@, pos as int, v, vote_fn());
        }
    }
    let n = match get_u64(b, pos) {
        Some(n) => n,
        None => return None,
    };
    let mut out: Vec<Vote> = Vec::new();
    let mut cur: usize = pos + 8;
    let mut k: u64 = 0;
    proof {
        assert(body(out@, vote_fn()) =~= Seq::<u8>::empty());
        assert(b@.subrange(cur as int, cur as int) =~= Seq::<u8>::empty());
        assert forall|v: Seq<Vote>| at(b@, pos as int, #[trigger] enc_list(v, vote_fn())) implies n
            == v.len() && out@ == v.take(0) && cur == pos + 8 + body(v.take(0), vote_fn()).len() by {
            assert(v.take(0) =~= Seq::<Vote>::empty());
            assert(out@ =~= Seq::<Vote>::empty());
        }
    }
    while k < n
        invariant
            pos + 8 <= cur <= b@.len(),
            blen == b@.len(),
            forall|x: Vote| #[trigger] vote_fn()(x).len() == 24,
            k <= n,
            out@.len() == k,
            at(b@, pos as int, enc_u64(n)),
            at(b@, pos + 8, body(out@, vote_fn())),
            cur == pos + 8 + body(out@, vote_fn()).len(),
            forall|v: Seq<Vote>|
                at(b@, pos as int, #[trigger] enc_list(v, vote_fn())) ==> n == v.len() && out@ == v.take(
                    k as int,
                ) && cur == pos + 8 + body(v.take(k as int), vote_fn()).len(),
        decreases n - k,
    {
        proof {
            assert forall|v: Seq<Vote>| at(b@, pos as int, #[trigger] enc_list(v, vote_fn())) implies at(
                b@,
                cur as int,
                vote_fn()(v[k as int]),
            ) && body(v.take(k + 1), vote_fn()).len() == body(v.take(k as int), vote_fn()).len() + vote_fn()(
                v[k as int],
            ).len() by {
                lemma_list_item(b@, pos as int, v, vote_fn(), k as int);
            }
        }
        let (x, next) = match get_vote(b, cur) {
            Some(p) => p,
            None => return None,
        };
        let ghost before = out@;
        out.push(x);
        proof {
            assert(out@.drop_last() =~= before);
            assert(out@.last() == x);
            lemma_at_join(b@, pos + 8, body(before, vote_fn()), vote_fn()(x));
            assert forall|v: Seq<Vote>| at(b@, pos as int, #[trigger] enc_list(v, vote_fn())) implies n
                == v.len() && out@ == v.take(k + 1) && next == pos + 8 + body(
                v.take(k + 1),
                vote_fn(),
            ).len() by {
                assert(out@ =~= v.take(k + 1));
            }
        }
        cur = next;
        k = k + 1;
    }
    proof {
        assert forall|v: Seq<Vote>| at(b@, pos as int, #[trigger] enc_list(v, vote_fn())) implies out@
            == v && cur == pos + enc_list(v, vote_fn()).len() by {
            lemma_list_head(b@, pos as int, v, vote_fn());
        }
    }
    proof {
        lemma_at_join(b@, pos as int, enc_u64(n), body(out@, vote_fn()));
        assert(enc_u64(n).len() == 8);
    }
    Some((out, cur))
}

#[verifier::rlimit(40)]
fn get_payload(b: &Vec<u8>, pos: usize) -> (r: Option<(Payload, usize)>)
    ensures
        forall|v: PayloadView|
            at(b@, pos as int, #[trigger] enc_payload(v)) ==> (r matches Some((x, end)) && x@ == v
                && end == pos + enc_payload(v).len()),
        r matches Some((x, end)) ==> pos <= end <= b@.len(),
        r matches Some((x, end)) ==> at(b@, pos as int, enc_payload(x@)) && end == pos
            + enc_payload(x@).len(),
{
    let blen = b.len();
    proof {
        assert forall|v: PayloadView| at(b@, pos as int, #[trigger] enc_payload(v)) implies match v {
            PayloadView::Release { commit, binary, hash } => {
                &&& at(b@, pos as int, enc_u64(0))
                &&& at(b@, pos + 8, enc_bytes(commit))
                &&& at(b@, pos + 8 + enc_bytes(commit).len(), enc_bytes(binary))
                &&& at(b@, pos + 8 + enc_bytes(commit).len() + enc_bytes(binary).len(), enc_bytes(hash))
                &&& enc_payload(v).len() == 8 + enc_bytes(commit).len() + enc_bytes(binary).len()
                    + enc_bytes(hash).len()
            },
            PayloadView::Reward { receiver, minted } => {
                &&& at(b@, pos as int, enc_u64(1))
                &&& at(b@, pos + 8, enc_u64(receiver))
                &&& at(b@, pos + 16, enc_u64(minted))
                &&& enc_payload(v).len() == 24
            },
            PayloadView::Fund { receiver, amount } => {
                &&& at(b@, pos as int, enc_u64(2))
                &&& at(b@, pos + 8, enc_u64(receiver))
                &&& at(b@, pos + 16, enc_u64(amount))
                &&& enc_payload(v).len() == 24
            },
        } by {
            lemma_auto_spec_u64_to_from_le_bytes();
            match v {
                PayloadView::Release { commit, binary, hash } => {
                    let rest = enc_bytes(commit) + (enc_bytes(binary) + enc_bytes(hash));
                    lemma_word_then(b@, pos as int, 0, rest);
                    lemma_at_split(b@, pos + 8, enc_bytes(commit), enc_bytes(binary) + enc_bytes(hash));
                    lemma_at_split(
                        b@,
                        pos + 8 + enc_bytes(commit).len(),
                        enc_bytes(binary),
                        enc_bytes(hash),
                    );
                },
                PayloadView::Reward { receiver, minted } => {
                    lemma_word_then(b@, pos as int, 1, enc_u64(receiver) + enc_u64(minted));
                    lemma_word_then(b@, pos + 8, receiver, enc_u64(minted));
                },
                PayloadView::Fund { receiver, amount } => {
                    lemma_word_then(b@, pos as int, 2, enc_u64(receiver) + enc_u64(amount));
                    lemma_word_then(b@, pos + 8, receiver, enc_u64(amount));
                },
            }
        }
    }
    let tag = match get_u64(b, pos) {
        Some(t) => t,
        None => return None,
    };
    if tag == 0 {
        let (commit, e1) = match get_bytes(b, pos + 8) {
            Some(p) => p,
            None => return None,
        };
        let (binary, e2) = match get_bytes(b, e1) {
            Some(p) => p,
            None => return None,
        };
        let (hash, e3) = match get_bytes(b, e2) {
            Some(p) => p,
            None => return None,
        };
        proof {
            lemma_fn_lens();
            lemma_at_join(b@, e1 as int, enc_bytes(binary@), enc_bytes(hash@));
            lemma_at_join(b@, pos + 8, enc_bytes(commit@), enc_bytes(binary@) + enc_bytes(hash@));
            lemma_at_join(
                b@,
                pos as int,
                enc_u64(0),
                enc_bytes(commit@) + (enc_bytes(binary@) + enc_bytes(hash@)),
            );
        }
        Some((Payload::Release { commit, binary, hash }, e3))
    } else if tag == 1 || tag == 2 {
        let receiver = match get_u64(b, pos + 8) {
            Some(x) => x,
            None => return None,
        };
        let x = match get_u64(b, pos + 16) {
            Some(x) => x,
            None => return None,
        };
        proof {
            lemma_fn_lens();
            lemma_at_join(b@, pos + 8, enc_u64(receiver), enc_u64(x));
            lemma_at_join(b@, pos as int, enc_u64(tag), enc_u64(receiver) + enc_u64(x));
        }
        if tag == 1 {
            Some((Payload::Reward { receiver, minted: x }, pos + 24))
        } else {
            Some((Payload::Fund { receiver, amount: x }, pos + 24))
        }
    } else {
        None
    }
}

#[verifier::rlimit(40)]
fn get_proposal(b: &Vec<u8>, pos: usize) -> (r: Option<(Proposal, usize)>)
    ensures
        forall|v: ProposalView|
            at(b@, pos as int, #[trigger] proposal_fn()(v)) ==> (r matches Some((x, end)) && x@ == v
                && end == pos + enc_proposal(v).len()),
        r matches Some((x, end)) ==> pos <= end <= b@.len(),
        r matches Some((x, end)) ==> at(b@, pos as int, proposal_fn()(x@)) && end == pos
            + proposal_fn()(x@).len(),
{
    let blen = b.len();
    proof {
        assert forall|v: ProposalView| at(b@, pos as int, #[trigger] proposal_fn()(v)) implies {
            let off1 = pos + 16 + enc_payload(v.payload).len();
            let off2 = off1 + enc_list(v.votes, vote_fn()).len();
            &&& at(b@, pos as int, enc_u64(v.id as u64))
            &&& at(b@, pos + 8, enc_u64(v.proposer))
            &&& at(b@, pos + 16, enc_payload(v.payload))
            &&& at(b@, off1, enc_list(v.votes, vote_fn()))
            &&& at(b@, off2, enc_u64(status_code(v.status)))
            &&& at(b@, off2 + 8, enc_u64(v.created_at))
            &&& at(b@, off2 + 16, enc_u64(v.deadline))
            &&& enc_proposal(v).len() == off2 + 24 - pos
        } by {
            let e3 = enc_u64(status_code(v.status)) + (enc_u64(v.created_at) + enc_u64(v.deadline));
            let e2 = enc_list(v.votes, vote_fn()) + e3;
            let e1 = enc_payload(v.payload) + e2;
            assert(proposal_fn()(v) == enc_proposal(v));
            lemma_fn_lens();
            lemma_word_then(b@, pos as int, v.id as u64, enc_u64(v.proposer) + e1);
            lemma_word_then(b@, pos + 8, v.proposer, e1);
            lemma_at_split(b@, pos + 16, enc_payload(v.payload), e2);
            let off1 = pos + 16 + enc_payload(v.payload).len();
            lemma_at_split(b@, off1, enc_list(v.votes, vote_fn()), e3);
            let off2 = off1 + enc_list(v.votes, vote_fn()).len();
            lemma_word_then(b@, off2, status_code(v.status), enc_u64(v.created_at) + enc_u64(v.deadline));
            lemma_word_then(b@, off2 + 8, v.created_at, enc_u64(v.deadline));
        }
    }
    let id = match get_u64(b, pos) {
        Some(x) => x,
        None => return None,
    };
    let proposer = match get_u64(b, pos + 8) {
        Some(x) => x,
        None => return None,
    };
    let (payload, off1) = match get_payload(b, pos + 16) {
        Some(p) => p,
        None => return None,
    };
    let (votes, off2) = match get_votes(b, off1) {
        Some(p) => p,
        None => return None,
    };
    let code = match get_u64(b, off2) {
        Some(x) => x,
        None => return None,
    };
    let created_at = match get_u64(b, off2 + 8) {
        Some(x) => x,
        None => return None,
    };
    let deadline = match get_u64(b, off2 + 16) {
        Some(x) => x,
        None => return None,
    };
    if id > u32::MAX as u64 || code > 4 {
        return None;
    }
    let status = if code == 0 {
        Status::Open
    } else if code == 1 {
        Status::Executed
    } else if code == 2 {
        Status::Rejected
    } else if code == 3 {
        Status::Cancelled
    } else {
        Status::Expired
    };
    let x = Proposal { id: id as u32, proposer, payload, votes, status, created_at, deadline };
    proof {
        lemma_fn_lens();
        assert(status_code(status) == code);
        assert(x.id as u64 == id);
        let tail = enc_u64(created_at) + enc_u64(deadline);
        lemma_at_join(b@, off2 + 8, enc_u64(created_at), enc_u64(deadline));
        lemma_at_join(b@, off2 as int, enc_u64(code), tail);
        let e3 = enc_u64(code) + tail;
        lemma_at_join(b@, off1 as int, enc_list(x@.votes, vote_fn()), e3);
        let e2 = enc_list(x@.votes, vote_fn()) + e3;
        lemma_at_join(b@, pos + 16, enc_payload(x@.payload), e2);
        let e1 = enc_payload(x@.payload) + e2;
        lemma_at_join(b@, pos + 8, enc_u64(proposer), e1);
        lemma_at_join(b@, pos as int, enc_u64(id), enc_u64(proposer) + e1);
        assert(proposal_fn()(x@) == enc_proposal(x@));
    }
    Some((x, off2 + 24))
}

/// Reads a list of proposals.
fn get_proposals(b: &Vec<u8>, pos: usize) -> (r: Option<(Vec<Proposal>, usize)>)
    ensures
        forall|v: Seq<ProposalView>|
            at(b@, pos as int, #[trigger] enc_list(v, proposal_fn())) ==> (r matches Some((x, end)) && x@.map_values(|p: Proposal| p@) == v
                && end == pos + enc_list(v, proposal_fn()).len()),
        r matches Some((x, end)) ==> pos <= end <= b@.len(),
        r matches Some((x, end)) ==> at(b@, pos as int, enc_list(x@.map_values(|p: Proposal| p@), proposal_fn())) && end == pos
            + enc_list(x@.map_values(|p: Proposal| p@), proposal_fn()).len(),
{
    let blen = b.len();
    proof {
        lemma_fn_lens();
        assert(blen <= u64::MAX);
        assert forall|v: Seq<ProposalView>| at(b@, pos as int, #[trigger] enc_list(v, proposal_fn())) implies at(
            b@,
            pos as int,
            enc_u64(v.len() as u64),
        ) && v.len() as u64 == v.len() && enc_list(v, proposal_fn()).len() == 8 + body(v, proposal_fn()).len() by {
            lemma_list_head(b@, pos as int, v, proposal_fn());
        }
    }
    let n = match get_u64(b, pos) {
        Some(n) => n,
        None => return None,
    };
    let mut out: Vec<Proposal> = Vec::new();
    let mut cur: usize = pos + 8;
    let mut k: u64 = 0;
    proof {
        assert(body(out@.map_values(|p: Proposal| p@), proposal_fn()) =~= Seq::<u8>::empty());
        assert(b@.subrange(cur as int, cur as int) =~= Seq::<u8>::empty());
        assert forall|v: Seq<ProposalView>| at(b@, pos as int, #[trigger] enc_list(v, proposal_fn())) implies n
            == v.len() && out@.map_values(|p: Proposal| p@) == v.take(0) && cur == pos + 8 + body(v.take(0), proposal_fn()).len() by {
            assert(v.take(0) =~= Seq::<ProposalView>::empty());
            assert(out@.map_values(|p: Proposal| p@) =~= Seq::<ProposalView>::empty());
        }
    }
    while k < n
        invariant
            pos + 8 <= cur <= b@.len(),
            blen == b@.len(),
            forall|x: ProposalView| #[trigger] proposal_fn()(x).len() >= 8,
            k <= n,
            out@.len() == k,
            at(b@, pos as int, enc_u64(n)),
            at(b@, pos + 8, body(out@.map_values(|p: Proposal| p@), proposal_fn())),
            cur == pos + 8 + body(out@.map_values(|p: Proposal| p@), proposal_fn()).len(),
            forall|v: Seq<ProposalView>|
                at(b@, pos as int, #[trigger] enc_list(v, proposal_fn())) ==> n == v.len() && out@.map_values(|p: Proposal| p@) == v.take(
                    k as int,
                ) && cur == pos + 8 + body(v.take(k as int), proposal_fn()).len(),
        decreases n - k,
    {
        proof {
            assert forall|v: Seq<ProposalView>| at(b@, pos as int, #[trigger] enc_list(v, proposal_fn())) implies at(
                b@,
                cur as int,
                proposal_fn()(v[k as int]),
            ) && body(v.take(k + 1), proposal_fn()).len() == body(v.take(k as int), proposal_fn()).len() + proposal_fn()(
                v[k as int],
            ).len() by {
                lemma_list_item(b@, pos as int, v, proposal_fn(), k as int);
            }
        }
        let (x, next) = match get_proposal(b, cur) {
            Some(p) => p,
            None => return None,
        };
        let ghost before = out@.map_values(|p: Proposal| p@);
        out.push(x);
        proof {
            assert(out@.map_values(|p: Proposal| p@).drop_last() =~= before);
            assert(out@.map_values(|p: Proposal| p@).last() == x@);
            lemma_at_join(b@, pos + 8, body(before, proposal_fn()), proposal_fn()(x@));
            assert forall|v: Seq<ProposalView>| at(b@, pos as int, #[trigger] enc_list(v, proposal_fn())) implies n
                == v.len() && out@.map_values(|p: Proposal| p@) == v.take(k + 1) && next == pos + 8 + body(
                v.take(k + 1),
                proposal_fn(),
            ).len() by {
                assert(out@.map_values(|p: Proposal| p@) =~= v.take(k + 1));
            }
        }
        cur = next;
        k = k + 1;
    }
    proof {
        assert forall|v: Seq<ProposalView>| at(b@, pos as int, #[trigger] enc_list(v, proposal_fn())) implies out@.map_values(|p: Proposal| p@)
            == v && cur == pos + enc_list(v, proposal_fn()).len() by {
            lemma_list_head(b@, pos as int, v, proposal_fn());
        }
    }
    proof {
        lemma_at_join(b@, pos as int, enc_u64(n), body(out@.map_values(|p: Proposal| p@), proposal_fn()));
        assert(enc_u64(n).len() == 8);
    }
    Some((out, cur))
}

fn get_upgrade(b: &Vec<u8>, pos: usize) -> (r: Option<(Option<Vec<u8>>, usize)>)
    ensures
        forall|v: Option<Seq<u8>>|
            at(b@, pos as int, #[trigger] enc_upgrade(v)) ==> (r matches Some((x, end)) && opt_view(x)
                == v && end == pos + enc_upgrade(v).len()),
        r matches Some((x, end)) ==> pos <= end <= b@.len(),
        r matches Some((x, end)) ==> at(b@, pos as int, enc_upgrade(opt_view(x))) && end == pos
            + enc_upgrade(opt_view(x)).len(),
{
    let blen = b.len();
    proof {
        lemma_fn_lens();
        assert forall|v: Option<Seq<u8>>| at(b@, pos as int, #[trigger] enc_upgrade(v)) implies match v {
            None => at(b@, pos as int, enc_u64(0)) && enc_upgrade(v).len() == 8,
            Some(x) => at(b@, pos as int, enc_u64(1)) && at(b@, pos + 8, enc_bytes(x))
                && enc_upgrade(v).len() == 8 + enc_bytes(x).len(),
        } by {
            match v {
                None => {},
                Some(x) => {
                    lemma_word_then(b@, pos as int, 1, enc_bytes(x));
                },
            }
        }
    }
    let flag = match get_u64(b, pos) {
        Some(f) => f,
        None => return None,
    };
    if flag == 0 {
        Some((None, pos + 8))
    } else if flag == 1 {
        match get_bytes(b, pos + 8) {
            Some((x, end)) => {
                proof {
                    lemma_at_join(b@, pos as int, enc_u64(1), enc_bytes(x@));
                }
                Some((Some(x), end))
            },
            None => None,
        }
    } else {
        None
    }
}

/// Rebuilds the world from its snapshot; `None` when the bytes are no snapshot.
#[verifier::rlimit(40)]
fn decode_state(b: &Vec<u8>) -> (r: Option<State>)
    ensures
        forall|v: StateView| b@ == #[trigger] enc_state(v) ==> (r matches Some(x) && x@ == v),
        r matches Some(x) ==> b@ == enc_state(x@),
{
    let blen = b.len();
    proof {
        lemma_fn_lens();
        assert forall|v: StateView| b@ == #[trigger] enc_state(v) implies {
            let off1 = enc_pairs(v.balances).len() as int;
            let off2 = off1 + 8;
            let off3 = off2 + enc_list(v.stalwarts, word_fn()).len();
            let off4 = off3 + enc_list(v.proposals, proposal_fn()).len();
            let off5 = off4 + enc_bytes(v.emergency_binary).len();
            let off6 = off5 + enc_pairs(v.emergency_votes).len();
            &&& at(b@, 0, enc_pairs(v.balances))
            &&& at(b@, off1, enc_u64(v.treasury))
            &&& at(b@, off2, enc_list(v.stalwarts, word_fn()))
            &&& at(b@, off3, enc_list(v.proposals, proposal_fn()))
            &&& at(b@, off4, enc_bytes(v.emergency_binary))
            &&& at(b@, off5, enc_pairs(v.emergency_votes))
            &&& at(b@, off6, enc_upgrade(v.upgrade))
            &&& b@.len() == off6 + enc_upgrade(v.upgrade).len()
        } by {
            let e6 = enc_pairs(v.emergency_votes) + enc_upgrade(v.upgrade);
            let e5 = enc_bytes(v.emergency_binary) + e6;
            let e4 = enc_list(v.proposals, proposal_fn()) + e5;
            let e3 = enc_list(v.stalwarts, word_fn()) + e4;
            let e2 = enc_u64(v.treasury) + e3;
            assert(b@.subrange(0, b@.len() as int) =~= b@);
            lemma_at_split(b@, 0, enc_pairs(v.balances), e2);
            let off1 = enc_pairs(v.balances).len() as int;
            lemma_word_then(b@, off1, v.treasury, e3);
            lemma_at_split(b@, off1 + 8, enc_list(v.stalwarts, word_fn()), e4);
            let off3 = off1 + 8 + enc_list(v.stalwarts, word_fn()).len();
            lemma_at_split(b@, off3, enc_list(v.proposals, proposal_fn()), e5);
            let off4 = off3 + enc_list(v.proposals, proposal_fn()).len();
            lemma_at_split(b@, off4, enc_bytes(v.emergency_binary), e6);
            let off5 = off4 + enc_bytes(v.emergency_binary).len();
            lemma_at_split(b@, off5, enc_pairs(v.emergency_votes), enc_upgrade(v.upgrade));
        }
    }
    let (balances, off1) = match get_pairs(b, 0) {
        Some(p) => p,
        None => return None,
    };
    let treasury = match get_u64(b, off1) {
        Some(x) => x,
        None => return None,
    };
    let (stalwarts, off3) = match get_words(b, off1 + 8) {
        Some(p) => p,
        None => return None,
    };
    let (proposals, off4) = match get_proposals(b, off3) {
        Some(p) => p,
        None => return None,
    };
    let (emergency_binary, off5) = match get_bytes(b, off4) {
        Some(p) => p,
        None => return None,
    };
    let (emergency_votes, off6) = match get_pairs(b, off5) {
        Some(p) => p,
        None => return None,
    };
    let (upgrade, end) = match get_upgrade(b, off6) {
        Some(p) => p,
        None => return None,
    };
    if end != b.len() {
        return None;
    }
    let x = State {
        ledger: Ledger { entries: balances },
        treasury,
        stalwarts,
        proposals,
        emergency_binary,
        emergency_votes,
        upgrade,
    };
    proof {
        let v = x@;
        assert(v.proposals == proposals@.map_values(|p: Proposal| p@));
        let e6 = enc_pairs(v.emergency_votes) + enc_upgrade(v.upgrade);
        lemma_at_join(b@, off6 as int - enc_pairs(v.emergency_votes).len(), enc_pairs(v.emergency_votes), enc_upgrade(v.upgrade));
        let e5 = enc_bytes(v.emergency_binary) + e6;
        lemma_at_join(b@, off5 as int - enc_bytes(v.emergency_binary).len(), enc_bytes(v.emergency_binary), e6);
        let e4 = enc_list(v.proposals, proposal_fn()) + e5;
        lemma_at_join(b@, off3 as int, enc_list(v.proposals, proposal_fn()), e5);
        let e3 = enc_list(v.stalwarts, word_fn()) + e4;
        lemma_at_join(b@, off1 + 8, enc_list(v.stalwarts, word_fn()), e4);
        lemma_at_join(b@, off1 as int, enc_u64(v.treasury), e3);
        lemma_at_join(b@, 0, enc_pairs(v.balances), enc_u64(v.treasury) + e3);
        assert(b@.subrange(0, b@.len() as int) =~= b@);
    }
    Some(x)
}

fn put_vote(out: &mut Vec<u8>, v: Vote)
    ensures
        final(out)@ == old(out)@ + vote_fn()(v),
{
    put_u64(out, v.voter);
    put_u64(out, if v.approve { 1 } else { 0 });
    put_u64(out, v.weight);
    assert(out@ =~= old(out)@ + enc_vote(v));
}

#[verifier::rlimit(40)]
fn put_payload(out: &mut Vec<u8>, p: &Payload)
    ensures
        final(out)@ == old(out)@ + enc_payload(p@),
{
    match p {
        Payload::Release { commit, binary, hash } => {
            put_u64(out, 0);
            put_bytes(out, commit);
            put_bytes(out, binary);
            put_bytes(out, hash);
        },
        Payload::Reward { receiver, minted } => {
            put_u64(out, 1);
            put_u64(out, *receiver);
            put_u64(out, *minted);
        },
        Payload::Fund { receiver, amount } => {
            put_u64(out, 2);
            put_u64(out, *receiver);
            put_u64(out, *amount);
        },
    }
    assert(out@ =~= old(out)@ + enc_payload(p@));
}

#[verifier::rlimit(40)]
fn put_proposal(out: &mut Vec<u8>, p: &Proposal)
    ensures
        final(out)@ == old(out)@ + proposal_fn()(p@),
{
    put_u64(out, p.id as u64);
    put_u64(out, p.proposer);
    put_payload(out, &p.payload);
    put_votes(out, &p.votes);
    let code: u64 = match p.status {
        Status::Open => 0,
        Status::Executed => 1,
        Status::Rejected => 2,
        Status::Cancelled => 3,
        Status::Expired => 4,
    };
    put_u64(out, code);
    put_u64(out, p.created_at);
    put_u64(out, p.deadline);
    assert(out@ =~= old(out)@ + enc_proposal(p@));
}

fn put_words(out: &mut Vec<u8>, s: &Vec<u64>)
    ensures
        final(out)@ == old(out)@ + enc_list(s@, word_fn()),
{
    let ghost start = out@;
    let ghost sv = s@;
    put_u64(out, s.len() as u64);
    let mut k: usize = 0;
    while k < s.len()
        invariant
            k <= s@.len(),
            sv.len() == s@.len(),
            sv == s@,
            out@ == start + enc_u64(s@.len() as u64) + body(sv.take(k as int), word_fn()),
        decreases s@.len() - k,
    {
        proof {
            lemma_body_step(sv, word_fn(), k as int);
        }
        put_u64(out, s[k]);
        k = k + 1;
        assert(out@ =~= start + enc_u64(s@.len() as u64) + body(sv.take(k as int), word_fn()));
    }
    assert(sv.take(k as int) =~= sv);
    assert(out@ =~= start + enc_list(sv, word_fn()));
}

fn put_votes(out: &mut Vec<u8>, s: &Vec<Vote>)
    ensures
        final(out)@ == old(out)@ + enc_list(s@, vote_fn()),
{
    let ghost start = out@;
    let ghost sv = s@;
    put_u64(out, s.len() as u64);
    let mut k: usize = 0;
    while k < s.len()
        invariant
            k <= s@.len(),
            sv.len() == s@.len(),
            sv == s@,
            out@ == start + enc_u64(s@.len() as u64) + body(sv.take(k as int), vote_fn()),
        decreases s@.len() - k,
    {
        proof {
            lemma_body_step(sv, vote_fn(), k as int);
        }
        put_vote(out, s[k]);
        k = k + 1;
        assert(out@ =~= start + enc_u64(s@.len() as u64) + body(sv.take(k as int), vote_fn()));
    }
    assert(sv.take(k as int) =~= sv);
    assert(out@ =~= start + enc_list(sv, vote_fn()));
}

fn put_proposals(out: &mut Vec<u8>, s: &Vec<Proposal>)
    ensures
        final(out)@ == old(out)@ + enc_list(s@.map_values(|p: Proposal| p@), proposal_fn()),
{
    let ghost start = out@;
    let ghost sv = s@.map_values(|p: Proposal| p@);
    put_u64(out, s.len() as u64);
    let mut k: usize = 0;
    while k < s.len()
        invariant
            k <= s@.len(),
            sv.len() == s@.len(),
            sv == s@.map_values(|p: Proposal| p@),
            out@ == start + enc_u64(s@.len() as u64) + body(sv.take(k as int), proposal_fn()),
        decreases s@.len() - k,
    {
        proof {
            lemma_body_step(sv, proposal_fn(), k as int);
        }
        put_proposal(out, &s[k]);
        k = k + 1;
        assert(out@ =~= start + enc_u64(s@.len() as u64) + body(sv.take(k as int), proposal_fn()));
    }
    assert(sv.take(k as int) =~= sv);
    assert(out@ =~= start + enc_list(sv, proposal_fn()));
}

/// The snapshot of the whole world, as written before a code replacement.
#[verifier::rlimit(40)]
pub fn serialize(s: &State) -> (r: Vec<u8>)
    ensures
        r@ == enc_state(s@),
{
    let mut out: Vec<u8> = Vec::new();
    put_pairs(&mut out, &s.ledger.entries);
    put_u64(&mut out, s.treasury);
    put_words(&mut out, &s.stalwarts);
    put_proposals(&mut out, &s.proposals);
    put_bytes(&mut out, &s.emergency_binary);
    put_pairs(&mut out, &s.emergency_votes);
    match &s.upgrade {
        None => put_u64(&mut out, 0),
        Some(b) => {
            put_u64(&mut out, 1);
            put_bytes(&mut out, b);
        },
    }
    assert(out@ =~= enc_state(s@));
    out
}

/// Whether no account has two entries.
fn pairs_unique(v: &Vec<(u64, u64)>) -> (r: bool)
    ensures
        r == keys_unique(v@),
{
    let mut i: usize = 0;
    while i < v.len()
        invariant
            i <= v@.len(),
            forall|a: int, c: int| 0 <= a < i && a < c < v@.len() ==> v@[a].0 != v@[c].0,
        decreases v@.len() - i,
    {
        let mut j: usize = i + 1;
        while j < v.len()
            invariant
                i < v@.len(),
                i + 1 <= j <= v@.len(),
                forall|a: int, c: int| 0 <= a < i && a < c < v@.len() ==> v@[a].0 != v@[c].0,
                forall|c: int| i < c < j ==> v@[i as int].0 != v@[c].0,
            decreases v@.len() - j,
        {
            if v[i].0 == v[j].0 {
                return false;
            }
            j = j + 1;
        }
        i = i + 1;
    }
    true
}

/// Whether no voter has two votes.
fn votes_unique(v: &Vec<Vote>) -> (r: bool)
    ensures
        r == voters_unique(v@),
{
    let mut i: usize = 0;
    while i < v.len()
        invariant
            i <= v@.len(),
            forall|a: int, c: int| 0 <= a < i && a < c < v@.len() ==> v@[a].voter != v@[c].voter,
        decreases v@.len() - i,
    {
        let mut j: usize = i + 1;
        while j < v.len()
            invariant
                i < v@.len(),
                i + 1 <= j <= v@.len(),
                forall|a: int, c: int| 0 <= a < i && a < c < v@.len() ==> v@[a].voter != v@[c].voter,
                forall|c: int| i < c < j ==> v@[i as int].voter != v@[c].voter,
            decreases v@.len() - j,
        {
            if v[i].voter == v[j].voter {
                return false;
            }
            j = j + 1;
        }
        i = i + 1;
    }
    true
}

/// Whether the amounts sum to a representable total.
fn total_fits(v: &Vec<(u64, u64)>) -> (r: bool)
    ensures
        r == (total_of(v@) <= u64::MAX),
{
    let mut sum: u64 = 0;
    let mut i: usize = 0;
    while i < v.len()
        invariant
            i <= v@.len(),
            sum == total_of(v@.take(i as int)),
        decreases v@.len() - i,
    {
        proof {
            lemma_total_prefix(v@, i + 1);
        }
        if v[i].1 > u64::MAX - sum {
            return false;
        }
        sum = sum + v[i].1;
        i = i + 1;
    }
    assert(v@.take(i as int) =~= v@);
    true
}

/// Whether a decoded world meets the invariant.
fn check_wf(s: &State) -> (r: bool)
    ensures
        r == state_wf(s@),
{
    if !pairs_unique(&s.ledger.entries) || !total_fits(&s.ledger.entries) {
        return false;
    }
    if !pairs_unique(&s.emergency_votes) || s.emergency_votes.len() > u32::MAX as usize {
        return false;
    }
    if s.proposals.len() > u32::MAX as usize {
        return false;
    }
    let ghost sv = s@;
    let mut i: usize = 0;
    while i < s.proposals.len()
        invariant
            sv == s@,
            i <= s.proposals@.len(),
            sv.proposals.len() == s.proposals@.len(),
            forall|k: int|
                0 <= k < i ==> {
                    &&& (#[trigger] sv.proposals[k]).id == k
                    &&& voters_unique(sv.proposals[k].votes)
                    &&& sv.proposals[k].votes.len() <= u32::MAX
                },
        decreases s.proposals@.len() - i,
    {
        let p = &s.proposals[i];
        assert(sv.proposals[i as int] == p@);
        if p.id as usize != i || p.votes.len() > u32::MAX as usize || !votes_unique(&p.votes) {
            return false;
        }
        i = i + 1;
    }
    true
}

/// Rebuilds the world after a code replacement. No snapshot at all (a fresh
/// deployment) gives the empty world with this treasury account; the snapshot
/// of any well-formed world gives that world back; anything else is refused.
pub fn restore(bytes: &Vec<u8>, treasury: u64) -> (r: Result<State, GovError>)
    ensures
        r matches Ok(x) ==> x.wf(),
        bytes@.len() == 0 ==> (r matches Ok(x) && x@ == (StateView {
            balances: Seq::empty(),
            treasury,
            stalwarts: Seq::empty(),
            proposals: Seq::empty(),
            emergency_binary: Seq::empty(),
            emergency_votes: Seq::empty(),
            upgrade: None,
        })),
        forall|v: StateView|
            state_wf(v) && bytes@ == #[trigger] enc_state(v) ==> (r matches Ok(x) && x@ == v),
        bytes@.len() > 0 ==> (r matches Ok(x) ==> bytes@ == enc_state(x@)),
        r is Err ==> r == Err::<State, GovError>(GovError::CorruptSnapshot),
{
    if bytes.len() == 0 {
        proof {
            lemma_fn_lens();
            assert forall|v: StateView| #[trigger] enc_state(v).len() > 0 by {
                assert(enc_u64(v.balances.len() as u64).len() == 8);
            }
        }
        return Ok(State::new(treasury));
    }
    match decode_state(bytes) {
        Some(s) => {
            if check_wf(&s) {
                Ok(s)
            } else {
                Err(GovError::CorruptSnapshot)
            }
        },
        None => Err(GovError::CorruptSnapshot),
    }
}

} // verus!
