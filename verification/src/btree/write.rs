//! Writing the pages of a copy-on-write update through the buffer pool.
//!
//! Each page goes to a fresh page id: it gets a frame of its own, holding
//! the page's bytes and marked dirty, so that the next write-back puts it
//! on the medium. Every other page keeps the bytes it had.

use vstd::prelude::*;
use crate::backend::{Durability, ReadAt, WriteAt};
use crate::buffer_pool::{
    BufferPool, BufferPoolView, FrameView, cleared, clock_sweep, page_image, page_offset, pool_victim, retabled,
};
use crate::error::StorageError;
use crate::page::PageId;
use super::cursor::pool_ready;

verus! {

/// The pool `v` after `bytes` went into the clock's victim as the new,
/// dirty, unpinned page `page_id` (the victim being clean).
pub open spec fn written_view(v: BufferPoolView, page_id: PageId, bytes: Seq<u8>) -> BufferPoolView {
    let (w, fr) = pool_victim(v).unwrap();
    BufferPoolView {
        frames: fr.update(
            w,
            FrameView { page_id, data: bytes, dirty: true, pin_count: 0, reference_bit: true },
        ),
        table: retabled(v.table, fr[w], page_id, w),
        clock_hand: (w + 1) % v.capacity,
        ..v
    }
}

/// Writing `pages` in order into the pool `v` finds a clean victim for
/// every page, so that no write-back reaches the medium.
pub open spec fn clean_run(v: BufferPoolView, pages: Seq<(PageId, Seq<u8>)>) -> bool
    decreases pages.len(),
{
    if pages.len() == 0 {
        true
    } else {
        &&& pool_victim(v) matches Some((w, fr)) && !fr[w].dirty
        &&& clean_run(written_view(v, pages[0].0, pages[0].1), pages.drop_first())
    }
}

/// Writing `n` new pages in a row into the pool `v` finds a clean victim
/// for each: which frame the clock picks depends only on the frames' pins,
/// reference bits and dirty marks, not on the pages written.
pub open spec fn clean_writes(v: BufferPoolView, n: nat) -> bool
    decreases n,
{
    if n == 0 {
        true
    } else {
        &&& pool_victim(v) matches Some((w, fr)) && !fr[w].dirty
        &&& clean_writes(written_view(v, PageId(0), Seq::empty()), (n - 1) as nat)
    }
}

/// Two frame sequences agree on every frame's pins, reference bit and
/// dirty mark.
pub open spec fn same_flags(a: Seq<FrameView>, b: Seq<FrameView>) -> bool {
    &&& a.len() == b.len()
    &&& forall|i: int|
        0 <= i < a.len() ==> (#[trigger] a[i]).pin_count == b[i].pin_count && a[i].reference_bit == b[i].reference_bit
            && a[i].dirty == b[i].dirty
}

/// The clock picks the same victim in frames with the same flags.
proof fn lemma_sweep_same_flags(a: Seq<FrameView>, b: Seq<FrameView>, hand: int, fuel: nat)
    requires
        same_flags(a, b),
    ensures
        clock_sweep(a, hand, fuel) is None <==> clock_sweep(b, hand, fuel) is None,
        clock_sweep(a, hand, fuel) matches Some((wa, fa)) ==> (clock_sweep(b, hand, fuel) matches Some((wb, fb))
            && wa == wb && same_flags(fa, fb)),
    decreases fuel,
{
    if fuel == 0 || !(0 <= hand < a.len()) {
    } else if a[hand].pin_count == 0 && !a[hand].reference_bit {
    } else {
        let na = if a[hand].pin_count == 0 {
            a.update(hand, cleared(a[hand]))
        } else {
            a
        };
        let nb = if b[hand].pin_count == 0 {
            b.update(hand, cleared(b[hand]))
        } else {
            b
        };
        assert(same_flags(na, nb)) by {
            assert forall|i: int| 0 <= i < na.len() implies (#[trigger] na[i]).pin_count == nb[i].pin_count
                && na[i].reference_bit == nb[i].reference_bit && na[i].dirty == nb[i].dirty by {
                if i != hand {
                    assert(na[i] == a[i] && nb[i] == b[i]);
                }
            }
        }
        lemma_sweep_same_flags(na, nb, (hand + 1) % (a.len() as int), (fuel - 1) as nat);
    }
}

/// A pool whose frames have the flags of one where `n` writes find clean
/// victims finds clean victims for any `n` pages.
pub proof fn lemma_clean_writes_run(v: BufferPoolView, u: BufferPoolView, pages: Seq<(PageId, Seq<u8>)>)
    requires
        same_flags(v.frames, u.frames),
        v.clock_hand == u.clock_hand,
        v.capacity == u.capacity,
        clean_writes(u, pages.len()),
    ensures
        clean_run(v, pages),
    decreases pages.len(),
{
    if pages.len() > 0 {
        lemma_sweep_same_flags(v.frames, u.frames, v.clock_hand, (2 * v.capacity) as nat);
        let (w, fv) = pool_victim(v).unwrap();
        let (wu, fu) = pool_victim(u).unwrap();
        assert(w == wu);
        crate::buffer_pool::lemma_clock_sweep_effect(v.frames, v.clock_hand, (2 * v.capacity) as nat);
        let v2 = written_view(v, pages[0].0, pages[0].1);
        let u2 = written_view(u, PageId(0), Seq::empty());
        assert(same_flags(v2.frames, u2.frames)) by {
            assert forall|i: int| 0 <= i < v2.frames.len() implies (#[trigger] v2.frames[i]).pin_count
                == u2.frames[i].pin_count && v2.frames[i].reference_bit == u2.frames[i].reference_bit
                && v2.frames[i].dirty == u2.frames[i].dirty by {
                if i != w {
                    assert(v2.frames[i] == fv[i] && u2.frames[i] == fu[i]);
                }
            }
        }
        lemma_clean_writes_run(v2, u2, pages.drop_first());
    }
}

/// The ids and bytes of `pages`.
pub open spec fn pages_view(pages: Seq<(PageId, Vec<u8>)>) -> Seq<(PageId, Seq<u8>)> {
    pages.map_values(|p: (PageId, Vec<u8>)| (p.0, p.1@))
}

/// Writes `bytes`, a whole page, as the new page `page_id` through `pool`.
///
/// Fails with `buffer pool exhausted: all frames are pinned` when every
/// frame is pinned, and when the write-back of a dirty victim fails; with a
/// clean victim it succeeds without touching the medium.
pub fn write_new_page<B: ReadAt + WriteAt + Durability>(
    pool: &mut BufferPool,
    backend: &mut B,
    page_id: PageId,
    bytes: &[u8],
) -> (r: Result<(), StorageError>)
    requires
        old(pool).wf(),
        pool_ready(old(pool)@, old(backend).contents()),
        page_id.0 != 0,
        !old(pool)@.table.contains_key(page_id.0),
        page_offset(page_id, old(pool)@.page_size) + old(pool)@.page_size <= usize::MAX,
        bytes@.len() == old(pool)@.page_size,
    ensures
        final(pool).wf(),
        pool_victim(old(pool)@) is None ==> (r matches Err(e) && e.message@
            == "buffer pool exhausted: all frames are pinned"@ && final(pool)@ == old(pool)@),
        pool_victim(old(pool)@) matches Some((w, fr)) && !fr[w].dirty ==> (r is Ok && final(pool)@ == written_view(
            old(pool)@,
            page_id,
            bytes@,
        ) && final(backend).contents() == old(backend).contents()),
        r is Ok ==> {
            &&& final(pool)@.page_size == old(pool)@.page_size
            &&& pool_ready(final(pool)@, final(backend).contents())
            &&& page_image(final(pool)@, final(backend).contents(), page_id) == Some(bytes@)
            &&& forall|k: u64|
                #[trigger] final(pool)@.table.contains_key(k) ==> k == page_id.0 || old(pool)@.table.contains_key(k)
            &&& forall|q: PageId|
                q.0 != 0 && q != page_id && page_image(old(pool)@, old(backend).contents(), q) is Some
                    ==> #[trigger] page_image(final(pool)@, final(backend).contents(), q) == page_image(
                    old(pool)@,
                    old(backend).contents(),
                    q,
                )
        },
{
    let ghost v0 = pool@;
    let ghost c0 = backend.contents();
    proof {
        crate::buffer_pool::lemma_victim_choice(v0);
    }
    let frame = match pool.new_page(page_id, backend) {
        Ok(f) => f,
        Err(e) => {
            return Err(e);
        },
    };
    let ghost v1 = pool@;
    let ghost c1 = backend.contents();
    proof {
        let (w, fr) = pool_victim(v0).unwrap();
        assert(frame == w);
        assert forall|j: int| 0 <= j < v1.frames.len() implies (#[trigger] v1.frames[j]).pin_count < u32::MAX by {
            if j != frame {
                assert(v1.frames[j] == fr[j]);
                assert(fr[j].pin_count == v0.frames[j].pin_count);
            }
        }
    }
    pool.fill_frame(frame, bytes);
    let ghost v2 = pool@;
    proof {
        assert(v2.table == v1.table);
        assert forall|i: int| 0 <= i < v2.frames.len() && (#[trigger] v2.frames[i]).page_id.0 != 0
            implies v2.table.contains_key(v2.frames[i].page_id.0) && v2.table[v2.frames[i].page_id.0] == i by {
            assert(v2.frames[i].page_id == v1.frames[i].page_id);
        }
        assert forall|i: int| 0 <= i < v2.frames.len() && (#[trigger] v2.frames[i]).page_id.0 != 0
            && !v2.frames[i].dirty implies {
            let off = page_offset(v2.frames[i].page_id, v2.page_size);
            &&& off + v2.page_size <= c1.len()
            &&& c1.subrange(off, off + v2.page_size) == v2.frames[i].data
        } by {
            assert(i != frame);
            assert(v2.frames[i] == v1.frames[i]);
        }
        assert forall|q: PageId| q.0 != 0 && q != page_id implies #[trigger] page_image(v2, c1, q) == page_image(
            v1,
            c1,
            q,
        ) by {
            if v1.table.contains_key(q.0) {
                assert(v1.table[q.0] != frame);
            }
        }
        assert(v1.table[page_id.0] == frame);
    }
    pool.unpin_page(frame, true);
    proof {
        let v3 = pool@;
        assert forall|j: int| 0 <= j < v3.frames.len() implies (#[trigger] v3.frames[j]).pin_count < u32::MAX by {
            if j != frame {
                assert(v3.frames[j] == v2.frames[j]);
            }
        }
        assert(page_image(v3, c1, page_id) == page_image(v2, c1, page_id));
    }
    Ok(())
}

/// Every page of `pages` is non-null, addressable with pages of
/// `page_size` bytes, not cached in a pool whose page table is `table`, a
/// whole page long, and has an id of its own.
pub open spec fn fresh_pages(pages: Seq<(PageId, Vec<u8>)>, table: Map<u64, usize>, page_size: int) -> bool {
    &&& forall|k: int|
        0 <= k < pages.len() ==> {
            &&& (#[trigger] pages[k]).0.0 != 0
            &&& !table.contains_key(pages[k].0.0)
            &&& page_offset(pages[k].0, page_size) + page_size <= usize::MAX
            &&& pages[k].1@.len() == page_size
        }
    &&& forall|a: int, b: int| 0 <= a < b < pages.len() ==> (#[trigger] pages[a]).0 != (#[trigger] pages[b]).0
}

/// Writes each page of `pages` (an id and its bytes) as a new page through
/// `pool`, in order, stopping at the first failure.
pub fn write_new_pages<B: ReadAt + WriteAt + Durability>(
    pool: &mut BufferPool,
    backend: &mut B,
    pages: &[(PageId, Vec<u8>)],
) -> (r: Result<(), StorageError>)
    requires
        old(pool).wf(),
        pool_ready(old(pool)@, old(backend).contents()),
        fresh_pages(pages@, old(pool)@.table, old(pool)@.page_size),
    ensures
        final(pool).wf(),
        clean_run(old(pool)@, pages_view(pages@)) ==> r is Ok && final(backend).contents() == old(
            backend,
        ).contents(),
        pages@.len() > 0 && pool_victim(old(pool)@) is None ==> (r matches Err(e) && e.message@
            == "buffer pool exhausted: all frames are pinned"@),
        r is Ok ==> {
            &&& final(pool)@.page_size == old(pool)@.page_size
            &&& pool_ready(final(pool)@, final(backend).contents())
            &&& forall|k: int|
                0 <= k < pages@.len() ==> page_image(final(pool)@, final(backend).contents(), (#[trigger] pages@[k]).0)
                    == Some(pages@[k].1@)
            &&& forall|q: PageId|
                q.0 != 0 && (forall|k: int| 0 <= k < pages@.len() ==> (#[trigger] pages@[k]).0 != q) && page_image(
                    old(pool)@,
                    old(backend).contents(),
                    q,
                ) is Some ==> #[trigger] page_image(final(pool)@, final(backend).contents(), q) == page_image(
                    old(pool)@,
                    old(backend).contents(),
                    q,
                )
        },
{
    let ghost v0 = pool@;
    let ghost c0 = backend.contents();
    let ghost ps = pool@.page_size;
    let mut i: usize = 0;
    proof {
        assert(pages_view(pages@).skip(0) =~= pages_view(pages@));
    }
    while i < pages.len()
        invariant
            i <= pages@.len(),
            pool.wf(),
            pool_ready(pool@, backend.contents()),
            pool@.page_size == ps,
            v0 == old(pool)@,
            c0 == old(backend).contents(),
            ps == v0.page_size,
            fresh_pages(pages@, v0.table, ps),
            forall|k: int| 0 <= k < i ==> page_image(pool@, backend.contents(), (#[trigger] pages@[k]).0) == Some(
                pages@[k].1@,
            ),
            forall|q: PageId|
                q.0 != 0 && (forall|k: int| 0 <= k < i ==> (#[trigger] pages@[k]).0 != q) && page_image(v0, c0, q) is Some
                    ==> #[trigger] page_image(pool@, backend.contents(), q) == page_image(v0, c0, q),
            forall|t: u64|
                #[trigger] pool@.table.contains_key(t) ==> v0.table.contains_key(t) || exists|j: int|
                    0 <= j < i && (#[trigger] pages@[j]).0.0 == t,
            clean_run(v0, pages_view(pages@)) ==> clean_run(pool@, pages_view(pages@).skip(i as int))
                && backend.contents() == c0,
            i == 0 ==> pool@ == v0,
            pool_victim(v0) is None ==> i == 0,
        decreases pages@.len() - i,
    {
        proof {
            let pv = pages_view(pages@);
            assert(pv.skip(i as int).drop_first() =~= pv.skip(i + 1));
            assert(pv.skip(i as int)[0] == pv[i as int]);
            assert(pv[i as int] == (pages@[i as int].0, pages@[i as int].1@));
        }
        let ghost vb = pool@;
        let ghost cb = backend.contents();
        let id = pages[i].0;
        proof {
            assert(pages@[i as int].0 == id);
            if vb.table.contains_key(id.0) {
                let j = choose|j: int| 0 <= j < i && (#[trigger] pages@[j]).0.0 == id.0;
                assert(pages@[j].0 != pages@[i as int].0);
                assert(false);
            }
        }
        match write_new_page(pool, backend, id, pages[i].1.as_slice()) {
            Ok(()) => {},
            Err(e) => {
                return Err(e);
            },
        }
        proof {
            assert forall|k: int| 0 <= k < i + 1 implies page_image(
                pool@,
                backend.contents(),
                (#[trigger] pages@[k]).0,
            ) == Some(pages@[k].1@) by {
                if k < i {
                    assert(pages@[k].0 != pages@[i as int].0);
                }
            }
            assert forall|q: PageId|
                q.0 != 0 && (forall|k: int| 0 <= k < i + 1 ==> (#[trigger] pages@[k]).0 != q) && page_image(
                    v0,
                    c0,
                    q,
                ) is Some implies #[trigger] page_image(pool@, backend.contents(), q) == page_image(v0, c0, q) by {
                assert(pages@[i as int].0 != q);
                assert forall|k: int| 0 <= k < i implies (#[trigger] pages@[k]).0 != q by {
                    assert(pages@[k].0 != q);
                }
            }
            assert forall|t: u64| #[trigger] pool@.table.contains_key(t) implies v0.table.contains_key(t) || exists|
                j: int,
            |
                0 <= j < i + 1 && (#[trigger] pages@[j]).0.0 == t by {
                if t == id.0 {
                    assert(pages@[i as int].0.0 == t);
                } else {
                    assert(vb.table.contains_key(t));
                }
            }
        }
        i = i + 1;
    }
    Ok(())
}

} // verus!
