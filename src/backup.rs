//! Paged export of durable memory for external backups.

use vstd::prelude::*;
use crate::snapshot::enc_state;
use crate::state::StateView;

verus! {

/// Size of one page of a backup export.
pub const BACKUP_PAGE_SIZE: u64 = 1048576;

/// Page `page` of the first `extent` bytes of `m`, in pages of `size` bytes:
/// empty from the page that starts at or past the extent on.
pub open spec fn page_of(m: Seq<u8>, extent: nat, page: nat, size: nat) -> Seq<u8> {
    let start = page * size;
    if start >= extent {
        Seq::empty()
    } else if start + size <= extent {
        m.subrange(start as int, (start + size) as int)
    } else {
        m.subrange(start as int, extent as int)
    }
}

/// Pages `0 .. n` one after the other.
pub open spec fn pages_upto(m: Seq<u8>, extent: nat, n: nat, size: nat) -> Seq<u8>
    decreases n,
{
    if n == 0 {
        Seq::empty()
    } else {
        pages_upto(m, extent, (n - 1) as nat, size) + page_of(m, extent, (n - 1) as nat, size)
    }
}

/// One page of the first `extent` bytes of `memory`, pages holding `size` bytes.
/// The extent is fixed once for a whole backup pass by the caller.
pub fn backup_chunk(memory: &Vec<u8>, extent: u64, page: u64, size: u64) -> (r: Vec<u8>)
    requires
        extent <= memory@.len(),
        size > 0,
    ensures
        r@ == page_of(memory@, extent as nat, page as nat, size as nat),
{
    let mut out: Vec<u8> = Vec::new();
    let mlen = memory.len();
    if page > extent / size {
        proof {
            assert(page * size > extent) by (nonlinear_arith)
                requires page > extent / size, size > 0;
        }
        return out;
    }
    proof {
        assert(page * size <= extent) by (nonlinear_arith)
            requires page <= extent / size, size > 0;
    }
    let start = page * size;
    if start >= extent {
        return out;
    }
    let end = if extent - start >= size { start + size } else { extent };
    let mut k: u64 = start;
    while k < end
        invariant
            start <= k <= end <= extent <= memory@.len(),
            mlen == memory@.len(),
            out@ == memory@.subrange(start as int, k as int),
        decreases end - k,
    {
        out.push(memory[k as usize]);
        k = k + 1;
        assert(out@ =~= memory@.subrange(start as int, k as int));
    }
    out
}

/// Page `page` of a backup of the first `extent` bytes of `memory`.
pub fn backup_page(memory: &Vec<u8>, extent: u64, page: u64) -> (r: Vec<u8>)
    requires
        extent <= memory@.len(),
    ensures
        r@ == page_of(memory@, extent as nat, page as nat, BACKUP_PAGE_SIZE as nat),
{
    backup_chunk(memory, extent, page, BACKUP_PAGE_SIZE)
}

proof fn lemma_pages_prefix(m: Seq<u8>, extent: nat, n: nat, size: nat)
    requires
        extent <= m.len(),
        size > 0,
    ensures
        pages_upto(m, extent, n, size) == m.subrange(
            0,
            if n * size <= extent {
                (n * size) as int
            } else {
                extent as int
            },
        ),
    decreases n,
{
    if n == 0 {
        assert(pages_upto(m, extent, n, size) =~= m.subrange(0, 0));
    } else {
        let k = (n - 1) as nat;
        lemma_pages_prefix(m, extent, k, size);
        assert(k * size + size == n * size) by (nonlinear_arith)
            requires k == n - 1;
        let prev = if k * size <= extent {
            (k * size) as int
        } else {
            extent as int
        };
        let next = if n * size <= extent {
            (n * size) as int
        } else {
            extent as int
        };
        let page = page_of(m, extent, k, size);
        if k * size >= extent {
            assert(page =~= Seq::<u8>::empty());
            assert(prev == extent);
            assert(n * size >= extent);
            assert(pages_upto(m, extent, n, size) =~= m.subrange(0, next));
        } else {
            assert(prev == k * size);
            assert(page =~= m.subrange(prev, next));
            assert(pages_upto(m, extent, n, size) =~= m.subrange(0, prev) + m.subrange(prev, next));
            assert(m.subrange(0, prev) + m.subrange(prev, next) =~= m.subrange(0, next));
        }
    }
}

/// Reading pages from the first on, up to one that starts at or past the
/// extent, gives back exactly the first `extent` bytes; every page from that
/// one on is empty.
pub proof fn lemma_pages_cover(m: Seq<u8>, extent: nat, n: nat, size: nat, later: nat)
    requires
        extent <= m.len(),
        size > 0,
        n * size >= extent,
        later >= n,
    ensures
        pages_upto(m, extent, n, size) == m.subrange(0, extent as int),
        page_of(m, extent, later, size) == Seq::<u8>::empty(),
{
    lemma_pages_prefix(m, extent, n, size);
    assert(later * size >= n * size) by (nonlinear_arith)
        requires later >= n, size > 0;
}

/// The pages of a backup of a snapshot, taken whole, are the snapshot.
pub proof fn lemma_backup_of_snapshot(s: StateView, n: nat)
    requires
        n * BACKUP_PAGE_SIZE >= enc_state(s).len(),
    ensures
        pages_upto(enc_state(s), enc_state(s).len(), n, BACKUP_PAGE_SIZE as nat) == enc_state(s),
{
    let m = enc_state(s);
    lemma_pages_cover(m, m.len(), n, BACKUP_PAGE_SIZE as nat, n);
    assert(m.subrange(0, m.len() as int) =~= m);
}

} // verus!
