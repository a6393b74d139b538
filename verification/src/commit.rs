//! The commit protocol of the storage engine.
//!
//! A commit makes new tree roots durable with two forced writes: first the
//! dirty pages are written back and forced to the medium (the medium first
//! growing to the new page count when the file gained pages), then the
//! next superblock is written into the slot that is not active and forced
//! out. Until that last write lands the active superblock still describes
//! the previous state; afterwards the new superblock, with the higher
//! transaction id, is the active one.

use vstd::prelude::*;
use crate::backend::{StorageBackend, resized, written};
use crate::buffer_pool::{BufferPool, all_clean, flushed_contents};
use crate::error::StorageError;
use crate::format::{
    Superblock, active_superblock, build_superblock_page_over, lemma_superblock_page_over_valid,
    identity_check, magic_seq, map_backend_err, open_result, page_at, superblock_of, superblock_page_over,
    superblock_valid,
};
use crate::page::IDENTITY_HEADER_SIZE;
use crate::snapshot::SnapshotRoots;

verus! {

/// The superblock that follows `active` when `roots` are committed with
/// `total_pages` pages: the next transaction id, the active feature flags
/// and the new roots (its checksum is set when its page is built).
pub open spec fn next_superblock(active: Superblock, roots: SnapshotRoots, total_pages: u64) -> Superblock {
    Superblock {
        transaction_id: (active.transaction_id + 1) as u64,
        total_pages,
        feature_flags: active.feature_flags,
        root_node_store: roots.node_store,
        root_edge_store: roots.edge_store,
        root_outgoing_adj: roots.outgoing_adj,
        root_incoming_adj: roots.incoming_adj,
        root_type_index: roots.type_index,
        root_schema_store: roots.schema_store,
        root_id_freelist: roots.id_freelist,
        root_page_freelist: roots.page_freelist,
        checksum: 0,
    }
}

/// The medium after the first phase of a commit: the dirty frames written
/// back, then grown to `total_pages` pages of `page_size` bytes when that
/// exceeds the active page count.
pub open spec fn after_data_phase(
    c: Seq<u8>,
    pool: crate::buffer_pool::BufferPoolView,
    active: Superblock,
    total_pages: u64,
    page_size: int,
) -> Seq<u8> {
    let flushed = flushed_contents(c, pool.frames, pool.page_size, pool.capacity);
    if total_pages > active.total_pages {
        resized(flushed, (total_pages * page_size) as nat)
    } else {
        flushed
    }
}

/// `c1` is `c0` with the superblock page for `sb` written into slot
/// `slot`, over the identity bytes at the start of `c0`.
pub open spec fn superblock_written(c0: Seq<u8>, c1: Seq<u8>, sb: Superblock, slot: int, page_size: int) -> bool {
    exists|page: Seq<u8>|
        #[trigger] superblock_page_over(page, c0.subrange(0, 32), sb, page_size) && c1 == written(
            c0,
            slot * page_size,
            page,
        )
}

/// The first phase of a commit: writes back every dirty frame and forces
/// the medium, growing it first to `total_pages` pages when that exceeds
/// the active page count.
fn write_back_and_force<B: StorageBackend>(
    backend: &mut B,
    pool: &mut BufferPool,
    active: &Superblock,
    page_size: usize,
    total_pages: u64,
) -> (r: Result<(), StorageError>)
    requires
        old(pool).wf(),
        total_pages > active.total_pages ==> total_pages * page_size <= usize::MAX,
    ensures
        final(pool).wf(),
        final(pool)@.table == old(pool)@.table,
        r is Ok ==> {
            &&& final(pool)@.frames == all_clean(old(pool)@.frames)
            &&& final(backend).contents() == after_data_phase(
                old(backend).contents(),
                old(pool)@,
                *active,
                total_pages,
                page_size as int,
            )
        },
{
    match pool.flush_all_dirty(backend) {
        Ok(()) => {},
        Err(e) => {
            return Err(e);
        },
    }
    if total_pages > active.total_pages {
        let new_size = total_pages * (page_size as u64);
        match backend.set_len(new_size) {
            Ok(()) => {},
            Err(e) => {
                return Err(map_backend_err(e));
            },
        }
        match backend.sync_all() {
            Ok(()) => {},
            Err(e) => {
                return Err(map_backend_err(e));
            },
        }
    } else {
        match backend.sync_data() {
            Ok(()) => {},
            Err(e) => {
                return Err(map_backend_err(e));
            },
        }
    }
    Ok(())
}

/// The second phase of a commit: writes the superblock page for `sb`, over
/// the identity bytes read back from the start of the medium, into slot
/// `slot`, and forces it out. Returns the checksum the page carries.
fn write_superblock<B: StorageBackend>(
    backend: &mut B,
    sb: &Superblock,
    slot: u8,
    page_size: usize,
) -> (r: Result<u64, StorageError>)
    requires
        slot < 2,
        page_size >= 192,
        2 * page_size <= usize::MAX,
    ensures
        r matches Ok(checksum) ==> {
            &&& old(backend).contents().len() >= 32
            &&& superblock_written(old(backend).contents(), final(backend).contents(), *sb, slot as int, page_size as int)
            &&& superblock_of(page_at(final(backend).contents(), slot as int, page_size as int)) == (Superblock {
                checksum,
                ..*sb
            })
        },
{
    let ghost c1 = backend.contents();
    let mut ident: Vec<u8> = vec![0u8; IDENTITY_HEADER_SIZE];
    match backend.read_at(0, ident.as_mut_slice()) {
        Ok(()) => {},
        Err(e) => {
            return Err(map_backend_err(e));
        },
    }
    let sb_page = build_superblock_page_over(ident.as_slice(), sb, page_size);
    let checksum = crate::codec::read_le64(sb_page.as_slice(), 184);
    let sb_offset: u64 = if slot == 0 {
        0
    } else {
        page_size as u64
    };
    match backend.write_at(sb_offset, sb_page.as_slice()) {
        Ok(()) => {},
        Err(e) => {
            return Err(map_backend_err(e));
        },
    }
    match backend.sync_data() {
        Ok(()) => {},
        Err(e) => {
            return Err(map_backend_err(e));
        },
    }
    proof {
        let ps = page_size as int;
        let page = sb_page@;
        assert(sb_offset as int == slot as int * ps);
        assert(backend.contents() == written(c1, slot as int * ps, page));
        crate::backend::lemma_read_after_write(c1, slot as int * ps, page);
        assert(page_at(backend.contents(), slot as int, ps) =~= page);
        assert(superblock_written(c1, backend.contents(), *sb, slot as int, ps));
    }
    Ok(checksum)
}

/// Commits new tree roots after the active superblock `active`, which sits
/// in slot `active_slot`: writes back every dirty frame of `pool`, forces
/// the medium (with `sync_all` after growing it to `total_pages` pages when
/// that exceeds the active page count, else with `sync_data`), writes the
/// next superblock into the other slot over the identity bytes read back
/// from the start of the medium, and forces it out. Returns the new active
/// superblock, with its checksum, and its slot.
///
/// Fails when a write-back, resize, read, write or force fails.
pub fn commit_roots<B: StorageBackend>(
    backend: &mut B,
    pool: &mut BufferPool,
    active: &Superblock,
    active_slot: u8,
    page_size: usize,
    new_roots: &SnapshotRoots,
    total_pages: u64,
) -> (r: Result<(Superblock, u8), StorageError>)
    requires
        old(pool).wf(),
        active_slot < 2,
        page_size >= 192,
        2 * page_size <= usize::MAX,
        active.transaction_id < u64::MAX,
        total_pages > active.total_pages ==> total_pages * page_size <= usize::MAX,
    ensures
        final(pool).wf(),
        final(pool)@.table == old(pool)@.table,
        r matches Ok((sb, slot)) ==> {
            let c1 = after_data_phase(
                old(backend).contents(),
                old(pool)@,
                *active,
                total_pages,
                page_size as int,
            );
            &&& slot == 1 - active_slot
            &&& final(pool)@.frames == all_clean(old(pool)@.frames)
            &&& c1.len() >= 32
            &&& superblock_written(
                c1,
                final(backend).contents(),
                next_superblock(*active, *new_roots, total_pages),
                slot as int,
                page_size as int,
            )
            &&& sb == superblock_of(page_at(final(backend).contents(), slot as int, page_size as int))
            &&& sb == (Superblock { checksum: sb.checksum, ..next_superblock(*active, *new_roots, total_pages) })
        },
{
    match write_back_and_force(backend, pool, active, page_size, total_pages) {
        Ok(()) => {},
        Err(e) => {
            return Err(e);
        },
    }
    let inactive_slot: u8 = 1 - active_slot;
    let new_superblock = Superblock {
        transaction_id: active.transaction_id + 1,
        total_pages,
        feature_flags: active.feature_flags,
        root_node_store: new_roots.node_store,
        root_edge_store: new_roots.edge_store,
        root_outgoing_adj: new_roots.outgoing_adj,
        root_incoming_adj: new_roots.incoming_adj,
        root_type_index: new_roots.type_index,
        root_schema_store: new_roots.schema_store,
        root_id_freelist: new_roots.id_freelist,
        root_page_freelist: new_roots.page_freelist,
        checksum: 0,
    };
    let checksum = match write_superblock(backend, &new_superblock, inactive_slot, page_size) {
        Ok(c) => c,
        Err(e) => {
            return Err(e);
        },
    };
    Ok((Superblock { checksum, ..new_superblock }, inactive_slot))
}

/// After a commit, the new superblock is the active one: its page is valid
/// when the identity bytes it was written over carry the magic, and the
/// page in the other slot either is not a valid superblock or carries a
/// lower transaction id.
pub proof fn lemma_commit_activates(
    c1: Seq<u8>,
    c2: Seq<u8>,
    sb: Superblock,
    slot: int,
    page_size: int,
)
    requires
        superblock_written(c1, c2, sb, slot, page_size),
        slot == 0 || slot == 1,
        page_size >= 192,
        c1.len() >= 32,
        c1.subrange(0, 14) == magic_seq(),
        c2.len() >= 2 * page_size,
        superblock_valid(page_at(c2, 1 - slot, page_size)) ==> superblock_of(
            page_at(c2, 1 - slot, page_size),
        ).transaction_id < sb.transaction_id,
    ensures
        active_superblock(page_at(c2, 0, page_size), page_at(c2, 1, page_size)) == Some(
            (superblock_of(page_at(c2, slot, page_size)), slot as u8),
        ),
        superblock_of(page_at(c2, slot, page_size)).transaction_id == sb.transaction_id,
{
    let page = choose|page: Seq<u8>|
        #[trigger] superblock_page_over(page, c1.subrange(0, 32), sb, page_size) && c2 == written(
            c1,
            slot * page_size,
            page,
        );
    crate::backend::lemma_read_after_write(c1, slot * page_size, page);
    assert(page_at(c2, slot, page_size) =~= page);
    assert(c1.subrange(0, 32).subrange(0, 14) =~= c1.subrange(0, 14));
    lemma_superblock_page_over_valid(page, c1.subrange(0, 32), sb, page_size);
}

/// A commit leaves the identity header at the start of the medium as it was.
proof fn lemma_commit_keeps_header(c1: Seq<u8>, c2: Seq<u8>, sb: Superblock, slot: int, page_size: int)
    requires
        superblock_written(c1, c2, sb, slot, page_size),
        slot == 0 || slot == 1,
        page_size >= 192,
        c1.len() >= 32,
    ensures
        c2.len() >= 32,
        c2.subrange(0, 32) == c1.subrange(0, 32),
{
    let page = choose|page: Seq<u8>|
        #[trigger] superblock_page_over(page, c1.subrange(0, 32), sb, page_size) && c2 == written(
            c1,
            slot * page_size,
            page,
        );
    crate::backend::lemma_read_after_write(c1, slot * page_size, page);
    if slot == 0 {
        assert(c2.subrange(0, page_size) =~= page);
        assert(c2.subrange(0, 32) =~= page.subrange(0, 32));
    } else {
        assert forall|k: int| 0 <= k < 32 implies c2[k] == c1[k] by {}
        assert(c2.subrange(0, 32) =~= c1.subrange(0, 32));
    }
}

/// Opening a medium whose first 32 bytes pass the identity checks gives its
/// active superblock.
proof fn lemma_open_after_checks(c: Seq<u8>, page_size: int)
    requires
        c.len() >= 2 * page_size,
        page_size >= 192,
        identity_check(c.subrange(0, 32), page_size) is Ok,
    ensures
        open_result(c, page_size) == match active_superblock(page_at(c, 0, page_size), page_at(c, 1, page_size)) {
            Some((sb, _)) => Some(sb),
            None => None,
        },
{
    let h = c.subrange(0, 32);
    assert(c.subrange(0, 14) =~= h.subrange(0, 14));
    assert(crate::codec::be16(c, 14) == crate::codec::be16(h, 14));
    assert(crate::codec::le16(c, 22) == crate::codec::le16(h, 22));
}

/// Opening the file after a commit sees the committed superblock: when the
/// identity header the commit wrote over passes the checks of opening with
/// `page_size`-byte pages, and the page in the other slot is not a valid
/// superblock or carries a lower transaction id, opening gives the new
/// superblock.
pub proof fn lemma_commit_then_open(c1: Seq<u8>, c2: Seq<u8>, sb: Superblock, slot: int, page_size: int)
    requires
        superblock_written(c1, c2, sb, slot, page_size),
        slot == 0 || slot == 1,
        page_size >= 192,
        c1.len() >= 32,
        identity_check(c1.subrange(0, 32), page_size) is Ok,
        c2.len() >= 2 * page_size,
        superblock_valid(page_at(c2, 1 - slot, page_size)) ==> superblock_of(
            page_at(c2, 1 - slot, page_size),
        ).transaction_id < sb.transaction_id,
    ensures
        open_result(c2, page_size) == Some(superblock_of(page_at(c2, slot, page_size))),
        superblock_of(page_at(c2, slot, page_size)).transaction_id == sb.transaction_id,
{
    assert(c1.subrange(0, 14) == magic_seq()) by {
        let h = c1.subrange(0, 32);
        assert(c1.subrange(0, 14) =~= h.subrange(0, 14));
    }
    lemma_commit_activates(c1, c2, sb, slot, page_size);
    lemma_commit_keeps_header(c1, c2, sb, slot, page_size);
    lemma_open_after_checks(c2, page_size);
}

} // verus!
