//! Buffer pool with clock eviction.
//!
//! The pool caches a fixed number of page frames. A requested page is
//! served from its frame when cached, else read from the backend into a
//! victim frame that the clock algorithm picks: the hand sweeps the frames,
//! skipping pinned ones and giving each recently used one a second chance
//! by clearing its reference bit. A dirty victim is written back first.

use vstd::prelude::*;
use crate::backend::{Durability, ReadAt, StorageErrorType, WriteAt, written};
use crate::codec::le32;
use crate::error::StorageError;
use crate::format::map_backend_err;
use crate::page::PageId;
use crate::page::header::{CommonPageHeader, page_checksum};

verus! {

/// Minimum buffer pool capacity in frames.
pub const MIN_BUFFER_POOL_FRAMES: usize = 64;

/// Default buffer pool capacity in frames.
pub const DEFAULT_BUFFER_POOL_FRAMES: usize = 1024;

// ---------------------------------------------------------------------------
// Page table
// ---------------------------------------------------------------------------

/// Maps a page id to the frame that caches it (a `hashbrown` hash map).
#[verifier::external_body]
pub struct PageTable {
    map: hashbrown::HashMap<u64, usize>,
}

/// The entries of a page table.
pub uninterp spec fn page_table_entries(t: PageTable) -> Map<u64, usize>;

/// Calls `hashbrown::HashMap::with_capacity`, which makes an empty map.
#[verifier::external_body]
fn page_table_with_capacity(capacity: usize) -> (r: PageTable)
    ensures
        forall|k: u64| !page_table_entries(r).contains_key(k),
{
    PageTable { map: hashbrown::HashMap::with_capacity(capacity) }
}

/// Calls `hashbrown::HashMap::get`, which returns the value stored under
/// the key, if any.
#[verifier::external_body]
fn page_table_lookup(t: &PageTable, key: u64) -> (r: Option<&usize>)
    ensures
        r is Some <==> page_table_entries(*t).contains_key(key),
        r matches Some(v) ==> *v == page_table_entries(*t)[key],
{
    t.map.get(&key)
}

/// Calls `hashbrown::HashMap::insert`, which stores the value under the key
/// (replacing any earlier one).
#[verifier::external_body]
fn page_table_insert(t: &mut PageTable, key: u64, value: usize)
    ensures
        page_table_entries(*final(t)) == page_table_entries(*old(t)).insert(key, value),
{
    t.map.insert(key, value);
}

/// Calls `hashbrown::HashMap::remove`, which drops the key's entry, if any.
#[verifier::external_body]
fn page_table_remove(t: &mut PageTable, key: u64)
    ensures
        page_table_entries(*final(t)) == page_table_entries(*old(t)).remove(key),
{
    t.map.remove(&key);
}

// ---------------------------------------------------------------------------
// Frames and the pool's model
// ---------------------------------------------------------------------------

/// One frame of the pool: a page's bytes and its bookkeeping.
struct PageFrame {
    /// The page this frame holds (`PageId(0)` when empty).
    page_id: PageId,
    /// The page bytes (`page_size` of them).
    data: Vec<u8>,
    /// Modified since last written back.
    dirty: bool,
    /// Number of active pins.
    pin_count: u32,
    /// Clock reference bit: set on access, cleared by the sweep.
    reference_bit: bool,
}

/// The mathematical value of a frame.
#[verifier::ext_equal]
pub struct FrameView {
    pub page_id: PageId,
    pub data: Seq<u8>,
    pub dirty: bool,
    pub pin_count: u32,
    pub reference_bit: bool,
}

/// The mathematical value of a [`BufferPool`].
#[verifier::ext_equal]
pub struct BufferPoolView {
    pub frames: Seq<FrameView>,
    pub table: Map<u64, usize>,
    pub clock_hand: int,
    pub capacity: int,
    pub page_size: int,
}

spec fn frame_view(f: PageFrame) -> FrameView {
    FrameView {
        page_id: f.page_id,
        data: f.data@,
        dirty: f.dirty,
        pin_count: f.pin_count,
        reference_bit: f.reference_bit,
    }
}

/// The byte offset of a page.
pub open spec fn page_offset(page_id: PageId, page_size: int) -> int {
    page_id.0 * page_size
}

/// The pool's invariant: as many frames as its capacity, each holding a
/// page's worth of bytes for a page whose end fits the address space; the
/// hand on a frame; every table entry naming a frame, and the frame of each
/// non-null page id holding that page.
pub open spec fn pool_wf(v: BufferPoolView) -> bool {
    &&& v.capacity == v.frames.len()
    &&& 1 <= v.capacity <= usize::MAX
    &&& 0 <= v.clock_hand < v.capacity
    &&& v.page_size <= usize::MAX
    &&& forall|i: int| 0 <= i < v.frames.len() ==> (#[trigger] v.frames[i]).data.len() == v.page_size
    &&& forall|i: int|
        0 <= i < v.frames.len() ==> page_offset((#[trigger] v.frames[i]).page_id, v.page_size) + v.page_size
            <= usize::MAX
    &&& forall|k: u64| #[trigger] v.table.contains_key(k) ==> v.table[k] < v.capacity
    &&& forall|k: u64|
        #[trigger] v.table.contains_key(k) && k != 0 ==> v.frames[v.table[k] as int].page_id.0 == k
}

/// A frame with its reference bit cleared.
pub open spec fn cleared(f: FrameView) -> FrameView {
    FrameView { reference_bit: false, ..f }
}

/// The clock sweep from `hand` with at most `fuel` steps: the first frame
/// reached that is unpinned and unreferenced is the victim; each unpinned
/// referenced frame passed over loses its reference bit. Gives the victim
/// and the frames after the sweep, or `None` when the steps run out.
pub open spec fn clock_sweep(frames: Seq<FrameView>, hand: int, fuel: nat) -> Option<(int, Seq<FrameView>)>
    decreases fuel,
{
    if fuel == 0 || !(0 <= hand < frames.len()) {
        None
    } else if frames[hand].pin_count == 0 && !frames[hand].reference_bit {
        Some((hand, frames))
    } else {
        let next = if frames[hand].pin_count == 0 {
            frames.update(hand, cleared(frames[hand]))
        } else {
            frames
        };
        clock_sweep(next, (hand + 1) % (frames.len() as int), (fuel - 1) as nat)
    }
}

/// The victim the pool's sweep picks: two full turns of the clock.
pub open spec fn pool_victim(v: BufferPoolView) -> Option<(int, Seq<FrameView>)> {
    clock_sweep(v.frames, v.clock_hand, (2 * v.capacity) as nat)
}

/// Some frame is unpinned.
pub open spec fn some_unpinned(frames: Seq<FrameView>) -> bool {
    exists|i: int| 0 <= i < frames.len() && (#[trigger] frames[i]).pin_count == 0
}

/// A sweep only clears reference bits of unpinned frames, and its victim is
/// unpinned and unreferenced.
pub proof fn lemma_clock_sweep_effect(frames: Seq<FrameView>, hand: int, fuel: nat)
    ensures
        clock_sweep(frames, hand, fuel) matches Some((v, fr)) ==> {
            &&& 0 <= v < frames.len()
            &&& fr.len() == frames.len()
            &&& fr[v].pin_count == 0
            &&& !fr[v].reference_bit
            &&& forall|i: int|
                0 <= i < frames.len() ==> (#[trigger] fr[i] == frames[i] || (frames[i].pin_count == 0
                    && fr[i] == cleared(frames[i])))
        },
    decreases fuel,
{
    if fuel == 0 || !(0 <= hand < frames.len()) {
    } else if frames[hand].pin_count == 0 && !frames[hand].reference_bit {
    } else {
        let next = if frames[hand].pin_count == 0 {
            frames.update(hand, cleared(frames[hand]))
        } else {
            frames
        };
        let n = frames.len() as int;
        lemma_clock_sweep_effect(next, (hand + 1) % n, (fuel - 1) as nat);
        if let Some((v, fr)) = clock_sweep(frames, hand, fuel) {
            assert forall|i: int| 0 <= i < frames.len() implies (#[trigger] fr[i] == frames[i] || (
            frames[i].pin_count == 0 && fr[i] == cleared(frames[i]))) by {
                if i == hand && frames[hand].pin_count == 0 {
                    assert(next[i] == cleared(frames[i]));
                    assert(cleared(next[i]) == cleared(frames[i]));
                }
            }
        }
    }
}

proof fn lemma_mod_wrap(x: int, n: int)
    requires
        n > 0,
        0 <= x < 2 * n,
    ensures
        x % n == if x < n { x } else { x - n },
{
    if x < n {
        vstd::arithmetic::div_mod::lemma_small_mod(x as nat, n as nat);
    } else {
        vstd::arithmetic::div_mod::lemma_mod_sub_multiples_vanish(x, n);
        vstd::arithmetic::div_mod::lemma_small_mod((x - n) as nat, n as nat);
    }
}

/// A sweep long enough to reach an unpinned frame twice finds a victim.
proof fn lemma_clock_sweep_finds(frames: Seq<FrameView>, hand: int, fuel: nat, j: int)
    requires
        0 <= hand < frames.len(),
        0 <= j < frames.len(),
        frames[j].pin_count == 0,
        fuel >= (j - hand + frames.len()) % (frames.len() as int) + 1 + (if frames[j].reference_bit {
            frames.len() as int
        } else {
            0
        }),
    ensures
        clock_sweep(frames, hand, fuel) is Some,
    decreases fuel,
{
    let n = frames.len() as int;
    if frames[hand].pin_count == 0 && !frames[hand].reference_bit {
    } else {
        let next = if frames[hand].pin_count == 0 {
            frames.update(hand, cleared(frames[hand]))
        } else {
            frames
        };
        let h2 = (hand + 1) % n;
        lemma_mod_wrap(hand + 1, n);
        lemma_mod_wrap(j - hand + n, n);
        assert(0 <= h2 < n);
        lemma_mod_wrap(j - h2 + n, n);
        if hand == j {
            assert(frames[j].reference_bit);
            assert(next[j] == cleared(frames[j]));
            lemma_clock_sweep_finds(next, h2, (fuel - 1) as nat, j);
        } else {
            assert(next[j] == frames[j]);
            lemma_clock_sweep_finds(next, h2, (fuel - 1) as nat, j);
        }
    }
}

/// The pool's sweep finds a victim exactly when some frame is unpinned.
pub proof fn lemma_pool_victim_iff_unpinned(v: BufferPoolView)
    requires
        pool_wf(v),
    ensures
        pool_victim(v) is Some <==> some_unpinned(v.frames),
{
    lemma_clock_sweep_effect(v.frames, v.clock_hand, (2 * v.capacity) as nat);
    if some_unpinned(v.frames) {
        let j = choose|i: int| 0 <= i < v.frames.len() && (#[trigger] v.frames[i]).pin_count == 0;
        let n = v.capacity;
        assert((j - v.clock_hand + n) % n < n);
        lemma_clock_sweep_finds(v.frames, v.clock_hand, (2 * v.capacity) as nat, j);
    }
    if pool_victim(v) is Some {
        let (w, fr) = pool_victim(v).unwrap();
        assert(v.frames[w].pin_count == 0) by {
            assert(fr[w] == v.frames[w] || (v.frames[w].pin_count == 0 && fr[w] == cleared(v.frames[w])));
        }
    }
}


/// The clock's choice of a victim: there is none exactly when every frame
/// is pinned; a victim is unpinned with its reference bit clear; and the
/// sweep changes nothing but the reference bits of unpinned frames (pin
/// counts, page ids, bytes and dirty flags stay as they were).
pub proof fn lemma_victim_choice(v: BufferPoolView)
    requires
        pool_wf(v),
    ensures
        pool_victim(v) is None <==> forall|i: int| 0 <= i < v.frames.len() ==> (#[trigger] v.frames[i]).pin_count > 0,
        pool_victim(v) matches Some((w, fr)) ==> {
            &&& 0 <= w < v.capacity
            &&& fr.len() == v.frames.len()
            &&& fr[w].pin_count == 0
            &&& !fr[w].reference_bit
            &&& forall|i: int|
                0 <= i < fr.len() ==> {
                    &&& (#[trigger] fr[i]).pin_count == v.frames[i].pin_count
                    &&& fr[i].page_id == v.frames[i].page_id
                    &&& fr[i].data == v.frames[i].data
                    &&& fr[i].dirty == v.frames[i].dirty
                    &&& (fr[i].reference_bit != v.frames[i].reference_bit ==> v.frames[i].pin_count == 0
                        && !fr[i].reference_bit)
                }
        },
{
    lemma_pool_victim_iff_unpinned(v);
    lemma_clock_sweep_effect(v.frames, v.clock_hand, (2 * v.capacity) as nat);
    if pool_victim(v) is None {
        assert forall|i: int| 0 <= i < v.frames.len() implies (#[trigger] v.frames[i]).pin_count > 0 by {
            if v.frames[i].pin_count == 0 {
                assert(some_unpinned(v.frames));
            }
        }
    }
    if pool_victim(v) is Some {
        let (w, fr) = pool_victim(v).unwrap();
        assert forall|i: int| 0 <= i < fr.len() implies (#[trigger] fr[i]).pin_count == v.frames[i].pin_count by {
            assert(fr[i] == v.frames[i] || (v.frames[i].pin_count == 0 && fr[i] == cleared(v.frames[i])));
        }
    }
}

} // verus!

verus! {

/// A page cache with clock eviction.
///
/// [`fetch_page`](Self::fetch_page) serves a page from its frame or reads
/// it into a victim frame, pinning it; [`unpin_page`](Self::unpin_page)
/// releases a pin and may mark the frame dirty; [`new_page`](Self::new_page)
/// claims a zeroed frame for a new page; dirty frames are written back when
/// flushed or evicted.
pub struct BufferPool {
    frames: Vec<PageFrame>,
    page_table: PageTable,
    clock_hand: usize,
    capacity: usize,
    page_size: usize,
}

impl View for BufferPool {
    type V = BufferPoolView;

    closed spec fn view(&self) -> BufferPoolView {
        BufferPoolView {
            frames: self.frames@.map_values(|f: PageFrame| frame_view(f)),
            table: page_table_entries(self.page_table),
            clock_hand: self.clock_hand as int,
            capacity: self.capacity as int,
            page_size: self.page_size as int,
        }
    }
}

/// The pool with frame `i` written back (no longer dirty).
pub open spec fn cleaned(v: BufferPoolView, i: int) -> BufferPoolView {
    BufferPoolView { frames: v.frames.update(i, FrameView { dirty: false, ..v.frames[i] }), ..v }
}

/// The medium after writing back the dirty ones among the first `k` frames,
/// in order.
pub open spec fn flushed_contents(c: Seq<u8>, frames: Seq<FrameView>, page_size: int, k: int) -> Seq<u8>
    decreases k,
{
    if k <= 0 {
        c
    } else {
        let p = flushed_contents(c, frames, page_size, k - 1);
        let f = frames[k - 1];
        if f.dirty {
            written(p, page_offset(f.page_id, page_size), f.data)
        } else {
            p
        }
    }
}

/// The medium after the victim `f` is written back when dirty.
pub open spec fn after_eviction(c: Seq<u8>, f: FrameView, page_size: int) -> Seq<u8> {
    if f.dirty {
        written(c, page_offset(f.page_id, page_size), f.data)
    } else {
        c
    }
}

/// The page table after frame contents `f` make way for `page_id`.
pub open spec fn retabled(table: Map<u64, usize>, f: FrameView, page_id: PageId, frame: int) -> Map<u64, usize> {
    let t = if f.page_id.0 != 0 {
        table.remove(f.page_id.0)
    } else {
        table
    };
    t.insert(page_id.0, frame as usize)
}

/// `new` is `old` after a cache hit on `page_id`: its frame pinned once
/// more and marked referenced, nothing else changed.
pub open spec fn fetched_hit(old: BufferPoolView, new: BufferPoolView, page_id: PageId, idx: usize) -> bool {
    let i = old.table[page_id.0];
    let f = old.frames[i as int];
    &&& idx == i
    &&& new == BufferPoolView {
        frames: old.frames.update(
            i as int,
            FrameView { reference_bit: true, pin_count: (f.pin_count + 1) as u32, ..f },
        ),
        ..old
    }
}

/// The pool `v` after the cached page `page_id` was read and released
/// again: its frame is marked referenced, nothing else changes.
pub open spec fn hit_view(v: BufferPoolView, page_id: PageId) -> BufferPoolView {
    let i = v.table[page_id.0];
    BufferPoolView { frames: v.frames.update(i as int, FrameView { reference_bit: true, ..v.frames[i as int] }), ..v }
}

/// `new` is `old` after `page_id` was read into the clock's victim: the
/// sweep's reference bits cleared, the victim written back when dirty, its
/// frame holding the page's bytes as read (carrying a valid checksum),
/// clean, pinned once and referenced, the table updated and the hand just
/// past the victim.
pub open spec fn fetched_miss(
    old: BufferPoolView,
    new: BufferPoolView,
    c0: Seq<u8>,
    c1: Seq<u8>,
    page_id: PageId,
    idx: usize,
) -> bool {
    match pool_victim(old) {
        Some((v, fr)) => {
            let ps = old.page_size;
            let off = page_offset(page_id, ps);
            let data = c1.subrange(off, off + ps);
            &&& idx == v
            &&& c1 == after_eviction(c0, fr[v], ps)
            &&& ps > 0 ==> off + ps <= c1.len()
            &&& data.len() >= 24
            &&& le32(data, 20) == page_checksum(data)
            &&& new == BufferPoolView {
                frames: fr.update(
                    v,
                    FrameView { page_id, data, dirty: false, pin_count: 1, reference_bit: true },
                ),
                table: retabled(old.table, fr[v], page_id, v),
                clock_hand: (v + 1) % old.capacity,
                ..old
            }
        },
        None => false,
    }
}

/// `new` is `old` after the clock's victim was claimed for the new page
/// `page_id`: zeroed, dirty, pinned once and referenced.
pub open spec fn claimed_new(
    old: BufferPoolView,
    new: BufferPoolView,
    c0: Seq<u8>,
    c1: Seq<u8>,
    page_id: PageId,
    idx: usize,
) -> bool {
    match pool_victim(old) {
        Some((v, fr)) => {
            &&& idx == v
            &&& c1 == after_eviction(c0, fr[v], old.page_size)
            &&& new == BufferPoolView {
                frames: fr.update(
                    v,
                    FrameView {
                        page_id,
                        data: crate::backend::zeros(old.page_size as nat),
                        dirty: true,
                        pin_count: 1,
                        reference_bit: true,
                    },
                ),
                table: retabled(old.table, fr[v], page_id, v),
                clock_hand: (v + 1) % old.capacity,
                ..old
            }
        },
        None => false,
    }
}

proof fn lemma_offset_bound(id: u64, ps: int)
    requires
        0 <= ps,
        id * ps + ps <= usize::MAX,
    ensures
        id * ps <= u64::MAX,
        0 <= id * ps,
{
    assert(0 <= id * ps) by (nonlinear_arith)
        requires
            0 <= ps,
    ;
}

impl BufferPool {
    /// The pool's invariant (see [`pool_wf`]).
    pub open spec fn wf(&self) -> bool {
        pool_wf(self@)
    }

    /// A pool of `capacity` empty frames of `page_size` bytes.
    pub fn new(capacity: usize, page_size: usize) -> (r: BufferPool)
        requires
            capacity >= MIN_BUFFER_POOL_FRAMES,
        ensures
            r.wf(),
            r@.capacity == capacity,
            r@.page_size == page_size,
            r@.clock_hand == 0,
            forall|k: u64| !r@.table.contains_key(k),
            forall|i: int|
                0 <= i < capacity ==> #[trigger] r@.frames[i] == (FrameView {
                    page_id: PageId(0),
                    data: crate::backend::zeros(page_size as nat),
                    dirty: false,
                    pin_count: 0,
                    reference_bit: false,
                }),
    {
        let mut frames: Vec<PageFrame> = Vec::new();
        let mut i: usize = 0;
        while i < capacity
            invariant
                i <= capacity,
                frames@.len() == i,
                forall|j: int|
                    0 <= j < i ==> #[trigger] frame_view(frames@[j]) == (FrameView {
                        page_id: PageId(0),
                        data: crate::backend::zeros(page_size as nat),
                        dirty: false,
                        pin_count: 0,
                        reference_bit: false,
                    }),
            decreases capacity - i,
        {
            let data = vec![0u8; page_size];
            assert(data@ =~= crate::backend::zeros(page_size as nat)) by {
                assert forall|k: int| 0 <= k < page_size implies data@[k] == 0u8 by {
                    assert(vstd::pervasive::cloned::<u8>(0u8, data@[k]));
                }
            }
            frames.push(PageFrame { page_id: PageId(0), data, dirty: false, pin_count: 0, reference_bit: false });
            i = i + 1;
        }
        let r = BufferPool {
            frames,
            page_table: page_table_with_capacity(capacity),
            clock_hand: 0,
            capacity,
            page_size,
        };
        proof {
            assert forall|j: int| 0 <= j < capacity implies #[trigger] r@.frames[j] == frame_view(r.frames@[j]) by {}
            assert(page_offset(PageId(0), page_size as int) == 0);
            assert forall|j: int| 0 <= j < r@.frames.len() implies page_offset((#[trigger] r@.frames[j]).page_id, r@.page_size)
                + r@.page_size <= usize::MAX by {
                assert(r@.frames[j] == frame_view(r.frames@[j]));
            }
            assert forall|j: int| 0 <= j < r@.frames.len() implies (#[trigger] r@.frames[j]).data.len() == r@.page_size by {
                assert(r@.frames[j] == frame_view(r.frames@[j]));
            }
        }
        r
    }

    /// The capacity in frames.
    pub fn capacity(&self) -> (r: usize)
        ensures
            r == self@.capacity,
    {
        self.capacity
    }

    /// The page size in bytes.
    pub fn page_size(&self) -> (r: usize)
        ensures
            r == self@.page_size,
    {
        self.page_size
    }

    /// The frame caching `page_id`, if any.
    pub fn page_table_get(&self, page_id: PageId) -> (r: Option<&usize>)
        ensures
            r is Some <==> self@.table.contains_key(page_id.0),
            r matches Some(i) ==> *i == self@.table[page_id.0],
    {
        page_table_lookup(&self.page_table, page_id.0)
    }

    /// The bytes held in frame `frame_index`.
    pub fn get_page_data(&self, frame_index: usize) -> (r: &[u8])
        requires
            frame_index < self@.capacity,
            self.wf(),
        ensures
            r@ == self@.frames[frame_index as int].data,
    {
        self.frames[frame_index].data.as_slice()
    }

    /// Replaces the bytes of frame `frame_index` by `bytes`, a whole page;
    /// unpin the frame as dirty afterwards.
    pub(crate) fn fill_frame(&mut self, frame_index: usize, bytes: &[u8])
        requires
            frame_index < old(self)@.capacity,
            old(self).wf(),
            bytes@.len() == old(self)@.page_size,
        ensures
            final(self).wf(),
            final(self)@ == (BufferPoolView {
                frames: old(self)@.frames.update(
                    frame_index as int,
                    FrameView { data: bytes@, ..old(self)@.frames[frame_index as int] },
                ),
                ..old(self)@
            }),
    {
        let ghost v0 = self@;
        let data = crate::codec::copy_range(bytes, 0, bytes.len());
        proof {
            assert(data@ =~= bytes@);
            assert(v0.frames[frame_index as int] == frame_view(self.frames@[frame_index as int]));
        }
        self.frames[frame_index].data = data;
        proof {
            assert(self@.frames =~= v0.frames.update(
                frame_index as int,
                FrameView { data: bytes@, ..v0.frames[frame_index as int] },
            ));
            assert(self@ =~= (BufferPoolView {
                frames: v0.frames.update(frame_index as int, FrameView { data: bytes@, ..v0.frames[frame_index as int] }),
                ..v0
            }));
        }
    }

    /// Mutable access to the bytes of frame `frame_index`; unpin the frame
    /// as dirty after changing them.
    pub fn get_page_data_mut(&mut self, frame_index: usize) -> (r: &mut [u8])
        requires
            frame_index < old(self)@.capacity,
            old(self).wf(),
        ensures
            r@ == old(self)@.frames[frame_index as int].data,
            final(self)@.frames.len() == old(self)@.frames.len(),
            final(self)@.frames[frame_index as int] == (FrameView {
                data: final(r)@,
                ..old(self)@.frames[frame_index as int]
            }),
            forall|j: int|
                0 <= j < old(self)@.frames.len() && j != frame_index ==> #[trigger] final(self)@.frames[j]
                    == old(self)@.frames[j],
            final(self)@.table == old(self)@.table,
            final(self)@.clock_hand == old(self)@.clock_hand,
            final(self)@.capacity == old(self)@.capacity,
            final(self)@.page_size == old(self)@.page_size,
    {
        self.frames[frame_index].data.as_mut_slice()
    }

    /// Releases one pin of frame `frame_index`, marking it dirty when
    /// `dirty` is set.
    pub fn unpin_page(&mut self, frame_index: usize, dirty: bool)
        requires
            old(self).wf(),
            frame_index < old(self)@.capacity,
            old(self)@.frames[frame_index as int].pin_count > 0,
        ensures
            final(self).wf(),
            final(self)@ == (BufferPoolView {
                frames: old(self)@.frames.update(
                    frame_index as int,
                    FrameView {
                        pin_count: (old(self)@.frames[frame_index as int].pin_count - 1) as u32,
                        dirty: old(self)@.frames[frame_index as int].dirty || dirty,
                        ..old(self)@.frames[frame_index as int]
                    },
                ),
                ..old(self)@
            }),
            forall|c: Seq<u8>| pool_consistent(old(self)@, c) ==> #[trigger] pool_consistent(final(self)@, c),
            forall|c: Seq<u8>, q: PageId| #[trigger] page_image(final(self)@, c, q) == page_image(old(self)@, c, q),
    {
        let ghost v0 = self@;
        let ghost f0 = self.frames@;
        assert(f0[frame_index as int].pin_count > 0 && frame_view(f0[frame_index as int]) == v0.frames[frame_index as int]);
        self.frames[frame_index].pin_count = self.frames[frame_index].pin_count - 1;
        if dirty {
            self.frames[frame_index].dirty = true;
        }
        proof {
            assert(self@.frames =~= v0.frames.update(
                frame_index as int,
                FrameView {
                    pin_count: (v0.frames[frame_index as int].pin_count - 1) as u32,
                    dirty: v0.frames[frame_index as int].dirty || dirty,
                    ..v0.frames[frame_index as int]
                },
            ));
            assert forall|c: Seq<u8>| pool_consistent(v0, c) implies #[trigger] pool_consistent(self@, c) by {
                assert forall|i: int| 0 <= i < self@.frames.len() && (#[trigger] self@.frames[i]).page_id.0 != 0 implies self@.table.contains_key(
                    self@.frames[i].page_id.0,
                ) && self@.table[self@.frames[i].page_id.0] == i by {
                    assert(self@.frames[i].page_id == v0.frames[i].page_id);
                }
                assert forall|i: int| 0 <= i < self@.frames.len() && (#[trigger] self@.frames[i]).page_id.0 != 0 && !self@.frames[i].dirty implies {
                    let off = page_offset(self@.frames[i].page_id, self@.page_size);
                    &&& off + self@.page_size <= c.len()
                    &&& c.subrange(off, off + self@.page_size) == self@.frames[i].data
                } by {
                    assert(self@.frames[i].page_id == v0.frames[i].page_id && self@.frames[i].data == v0.frames[i].data
                        && (!self@.frames[i].dirty ==> !v0.frames[i].dirty));
                }
            }
            assert forall|c: Seq<u8>, q: PageId| #[trigger] page_image(self@, c, q) == page_image(v0, c, q) by {
                if v0.table.contains_key(q.0) {
                    assert(self@.frames[v0.table[q.0] as int].data == v0.frames[v0.table[q.0] as int].data);
                }
            }
        }
    }
}

} // verus!

verus! {

proof fn lemma_hand_step(h0: int, s: int, n: int)
    requires
        n > 0,
        0 <= h0 < n,
        0 <= s,
    ensures
        ((h0 + s) % n + 1) % n == (h0 + s + 1) % n,
        0 <= (h0 + s) % n < n,
{
    let a = h0 + s;
    vstd::arithmetic::div_mod::lemma_fundamental_div_mod(a, n);
    vstd::arithmetic::div_mod::lemma_mod_pos_bound(a, n);
    vstd::arithmetic::div_mod::lemma_mod_multiples_vanish(a / n, a % n + 1, n);
    assert(n * (a / n) + (a % n + 1) == a + 1);
}

proof fn lemma_full_turns(h0: int, n: int)
    requires
        n > 0,
        0 <= h0 < n,
    ensures
        (h0 + 2 * n) % n == h0,
{
    vstd::arithmetic::div_mod::lemma_mod_multiples_vanish(2, h0, n);
    vstd::arithmetic::div_mod::lemma_small_mod(h0 as nat, n as nat);
    assert(n * 2 + h0 == h0 + 2 * n) by (nonlinear_arith);
}

impl BufferPool {
    /// Runs the clock sweep: returns the victim frame, or fails when every
    /// frame is pinned (leaving the pool as it was).
    fn find_victim(&mut self) -> (r: Result<usize, StorageError>)
        requires
            pool_wf(old(self)@),
        ensures
            pool_wf(final(self)@),
            match pool_victim(old(self)@) {
                Some((v, fr)) => r matches Ok(i) && i == v && final(self)@ == (BufferPoolView {
                    frames: fr,
                    clock_hand: (v + 1) % old(self)@.capacity,
                    ..old(self)@
                }),
                None => r matches Err(e) && e.message@ == "buffer pool exhausted: all frames are pinned"@
                    && final(self)@ == old(self)@,
            },
    {
        let ghost v0 = self@;
        let cap = self.capacity;
        let mut swept: u128 = 0;
        proof {
            lemma_pool_victim_iff_unpinned(v0);
            vstd::arithmetic::div_mod::lemma_small_mod(v0.clock_hand as nat, cap as nat);
        }
        loop
            invariant
                pool_wf(self@),
                pool_wf(v0),
                v0 == old(self)@,
                self@.table == v0.table,
                self@.capacity == v0.capacity == cap,
                self@.page_size == v0.page_size,
                self.frames@.len() == cap,
                self.capacity == cap,
                0 <= swept < 2 * cap,
                pool_victim(v0) == clock_sweep(self@.frames, self@.clock_hand, (2 * cap - swept) as nat),
                self@.clock_hand == (v0.clock_hand + swept) % (cap as int),
                !some_unpinned(v0.frames) ==> self@.frames == v0.frames,
                pool_victim(v0) is Some <==> some_unpinned(v0.frames),
            decreases 2 * cap - swept,
        {
            let h = self.clock_hand;
            let ghost fr0 = self@.frames;
            let ghost fuel = (2 * cap - swept) as nat;
            proof {
                lemma_hand_step(v0.clock_hand, swept as int, cap as int);
                assert(fr0[h as int] == frame_view(self.frames@[h as int]));
            }
            if self.frames[h].pin_count == 0 {
                if !self.frames[h].reference_bit {
                    proof {
                        assert(clock_sweep(fr0, h as int, fuel) == Some((h as int, fr0)));
                    }
                    self.clock_hand = (h + 1) % cap;
                    proof {
                        assert(self@.frames == fr0);
                        assert(pool_victim(v0) == Some((h as int, fr0)));
                        assert(self@ =~= (BufferPoolView {
                            frames: fr0,
                            clock_hand: (h + 1) % v0.capacity,
                            ..v0
                        }));
                    }
                    return Ok(h);
                }
                self.frames[h].reference_bit = false;
                proof {
                    assert(self@.frames =~= fr0.update(h as int, cleared(fr0[h as int])));
                    assert(some_unpinned(v0.frames) || fr0 == v0.frames);
                    if !some_unpinned(v0.frames) {
                        assert(v0.frames[h as int].pin_count == 0);
                    }
                }
            }
            self.clock_hand = (h + 1) % cap;
            proof {
                assert(clock_sweep(fr0, h as int, fuel) == clock_sweep(
                    self@.frames,
                    self@.clock_hand,
                    (fuel - 1) as nat,
                ));
            }
            swept = swept + 1;
            if swept >= 2 * (cap as u128) {
                proof {
                    lemma_full_turns(v0.clock_hand, cap as int);
                    assert(clock_sweep(self@.frames, self@.clock_hand, 0) is None);
                    assert(pool_victim(v0) is None);
                    assert(self@.frames == v0.frames);
                    assert(self@ =~= v0);
                }
                return Err(StorageError::new("buffer pool exhausted: all frames are pinned"));
            }
        }
    }

    /// Writes frame `frame_index` back to `backend` when it is dirty, and
    /// marks it clean.
    fn flush_frame<B: WriteAt>(&mut self, frame_index: usize, backend: &mut B) -> (r: Result<(), StorageError>)
        requires
            pool_wf(old(self)@),
            frame_index < old(self)@.capacity,
        ensures
            pool_wf(final(self)@),
            !old(self)@.frames[frame_index as int].dirty ==> r is Ok && final(self)@ == old(self)@
                && final(backend).contents() == old(backend).contents(),
            old(self)@.frames[frame_index as int].dirty && r is Ok ==> final(self)@ == cleaned(
                old(self)@,
                frame_index as int,
            ) && final(backend).contents() == after_eviction(
                old(backend).contents(),
                old(self)@.frames[frame_index as int],
                old(self)@.page_size,
            ),
            old(self)@.frames[frame_index as int].dirty && r is Err ==> final(self)@ == old(self)@,
    {
        let ghost v0 = self@;
        if !self.frames[frame_index].dirty {
            return Ok(());
        }
        let ps = self.page_size;
        let pid = self.frames[frame_index].page_id.0;
        proof {
            assert(v0.frames[frame_index as int] == frame_view(self.frames@[frame_index as int]));
            lemma_offset_bound(pid, ps as int);
        }
        let offset = pid * (ps as u64);
        match backend.write_at(offset, self.frames[frame_index].data.as_slice()) {
            Ok(()) => {},
            Err(e) => {
                return Err(map_backend_err(e));
            },
        }
        self.frames[frame_index].dirty = false;
        proof {
            assert(self@.frames =~= v0.frames.update(
                frame_index as int,
                FrameView { dirty: false, ..v0.frames[frame_index as int] },
            ));
            assert forall|j: int| 0 <= j < self@.frames.len() implies (#[trigger] self@.frames[j]).data.len() == self@.page_size
                && page_offset(self@.frames[j].page_id, self@.page_size) + self@.page_size <= usize::MAX by {
                assert(self@.frames[j].data == v0.frames[j].data && self@.frames[j].page_id == v0.frames[j].page_id);
            }
            assert(self@.table == v0.table);
            assert forall|k: u64| #[trigger] self@.table.contains_key(k) implies self@.table[k] < self@.capacity by {}
            assert forall|k: u64| #[trigger] self@.table.contains_key(k) && k != 0 implies self@.frames[self@.table[k] as int].page_id.0 == k by {
                assert(self@.frames[self@.table[k] as int].page_id == v0.frames[v0.table[k] as int].page_id);
            }
        }
        Ok(())
    }
}

} // verus!

verus! {

impl BufferPool {
    /// Pins page `page_id` in a frame and returns the frame's index.
    ///
    /// On a hit the page's frame is pinned once more and marked referenced.
    /// On a miss the clock picks a victim (failing, with `buffer pool
    /// exhausted: all frames are pinned`, when every frame is pinned), which
    /// is written back when dirty; the page is then read from `backend` into
    /// it and must carry a valid checksum. Fails too when writing back,
    /// reading or the checksum fails.
    pub fn fetch_page<B: ReadAt + WriteAt + Durability>(&mut self, page_id: PageId, backend: &mut B) -> (r: Result<
        usize,
        StorageError,
    >)
        requires
            old(self).wf(),
            page_offset(page_id, old(self)@.page_size) + old(self)@.page_size <= usize::MAX,
            old(self)@.table.contains_key(page_id.0) ==> old(self)@.frames[old(self)@.table[page_id.0] as int].pin_count
                < u32::MAX,
        ensures
            final(self).wf(),
            old(self)@.table.contains_key(page_id.0) ==> (r matches Ok(i) && fetched_hit(
                old(self)@,
                final(self)@,
                page_id,
                i,
            ) && final(backend).contents() == old(backend).contents()),
            !old(self)@.table.contains_key(page_id.0) && pool_victim(old(self)@) is None ==> (r matches Err(e)
                && e.message@ == "buffer pool exhausted: all frames are pinned"@ && final(self)@ == old(self)@
                && final(backend).contents() == old(backend).contents()),
            !old(self)@.table.contains_key(page_id.0) ==> (r matches Ok(i) ==> fetched_miss(
                old(self)@,
                final(self)@,
                old(backend).contents(),
                final(backend).contents(),
                page_id,
                i,
            )),
            page_id.0 != 0 && pool_consistent(old(self)@, old(backend).contents()) ==> (r matches Ok(i) ==> {
                &&& pool_consistent(final(self)@, final(backend).contents())
                &&& images_kept(old(self)@, old(backend).contents(), final(self)@, final(backend).contents())
                &&& page_image(old(self)@, old(backend).contents(), page_id) matches Some(d)
                    ==> final(self)@.frames[i as int].data == d
            }),
    {
        let ghost v0 = self@;
        let ghost c0 = backend.contents();
        match page_table_lookup(&self.page_table, page_id.0) {
            Some(fi) => {
                let frame_idx = *fi;
                proof {
                    assert(v0.frames[frame_idx as int] == frame_view(self.frames@[frame_idx as int]));
                }
                self.frames[frame_idx].reference_bit = true;
                self.frames[frame_idx].pin_count = self.frames[frame_idx].pin_count + 1;
                proof {
                    let f = v0.frames[frame_idx as int];
                    assert(self@.frames =~= v0.frames.update(
                        frame_idx as int,
                        FrameView { reference_bit: true, pin_count: (f.pin_count + 1) as u32, ..f },
                    ));
                    assert(self@ =~= (BufferPoolView {
                        frames: v0.frames.update(
                            frame_idx as int,
                            FrameView { reference_bit: true, pin_count: (f.pin_count + 1) as u32, ..f },
                        ),
                        ..v0
                    }));
                    assert forall|k: u64| #[trigger] self@.table.contains_key(k) && k != 0 implies self@.frames[self@.table[k] as int].page_id.0 == k by {
                        assert(self@.frames[self@.table[k] as int].page_id == v0.frames[v0.table[k] as int].page_id);
                    }
                    assert forall|j: int| 0 <= j < self@.frames.len() implies (#[trigger] self@.frames[j]).data.len() == self@.page_size
                        && page_offset(self@.frames[j].page_id, self@.page_size) + self@.page_size <= usize::MAX by {
                        assert(self@.frames[j].data == v0.frames[j].data && self@.frames[j].page_id == v0.frames[j].page_id);
                    }
                    if page_id.0 != 0 && pool_consistent(v0, c0) {
                        lemma_fetch_transparent(v0, c0, self@, backend.contents(), page_id, frame_idx);
                    }
                }
                return Ok(frame_idx);
            },
            None => {},
        }
        let v = match self.find_victim() {
            Ok(v) => v,
            Err(e) => {
                return Err(e);
            },
        };
        let ghost v1 = self@;
        proof {
            lemma_clock_sweep_effect(v0.frames, v0.clock_hand, (2 * v0.capacity) as nat);
            assert(v1.frames[v as int] == frame_view(self.frames@[v as int]));
        }
        if self.frames[v].dirty {
            match self.flush_frame(v, backend) {
                Ok(()) => {},
                Err(e) => {
                    return Err(e);
                },
            }
        }
        let ghost v2 = self@;
        let ghost c1 = backend.contents();
        proof {
            assert(c1 == after_eviction(c0, v1.frames[v as int], v1.page_size));
            assert(v2.frames[v as int] == frame_view(self.frames@[v as int]));
            assert(v2.frames[v as int].page_id == v1.frames[v as int].page_id);
            assert(v2.table == v0.table);
        }
        let old_page_id = self.frames[v].page_id;
        if !old_page_id.is_null() {
            page_table_remove(&mut self.page_table, old_page_id.0);
        }
        let ps = self.page_size;
        proof {
            lemma_offset_bound(page_id.0, ps as int);
        }
        let offset = page_id.0 * (ps as u64);
        match backend.read_at(offset, self.frames[v].data.as_mut_slice()) {
            Ok(()) => {},
            Err(e) => {
                proof {
                    self.lemma_wf_after_read(v2, v as int, old_page_id);
                }
                return Err(map_backend_err(e));
            },
        }
        let ghost read = self.frames@[v as int].data@;
        match CommonPageHeader::validate_checksum(self.frames[v].data.as_slice()) {
            Ok(()) => {},
            Err(e) => {
                proof {
                    self.lemma_wf_after_read(v2, v as int, old_page_id);
                }
                return Err(e);
            },
        }
        self.frames[v].page_id = page_id;
        self.frames[v].dirty = false;
        self.frames[v].pin_count = 1;
        self.frames[v].reference_bit = true;
        page_table_insert(&mut self.page_table, page_id.0, v);
        proof {
            let off = page_offset(page_id, ps as int);
            if ps == 0 {
                assert(read =~= c1.subrange(off, off + ps));
            }
            let nf = FrameView { page_id, data: read, dirty: false, pin_count: 1, reference_bit: true };
            let (vv, fr) = pool_victim(v0).unwrap();
            assert(self@.frames =~= fr.update(v as int, nf)) by {
                assert forall|j: int| 0 <= j < fr.len() && j != v implies #[trigger] self@.frames[j] == fr[j] by {
                    assert(self@.frames[j] == v2.frames[j]);
                    assert(v2.frames[j] == v1.frames[j]);
                }
            }
            assert(self@.table =~= retabled(v0.table, fr[v as int], page_id, v as int));
            assert(self@ =~= (BufferPoolView {
                frames: fr.update(v as int, nf),
                table: retabled(v0.table, fr[v as int], page_id, v as int),
                clock_hand: (v + 1) % v0.capacity,
                ..v0
            }));
            self.lemma_wf_after_fill(v0, v as int);
            assert(fetched_miss(v0, self@, c0, backend.contents(), page_id, v));
            if page_id.0 != 0 && pool_consistent(v0, c0) {
                lemma_fetch_transparent(v0, c0, self@, backend.contents(), page_id, v);
            }
        }
        Ok(v)
    }

    proof fn lemma_wf_after_read(&self, v2: BufferPoolView, v: int, old_page_id: PageId)
        requires
            pool_wf(v2),
            0 <= v < v2.capacity,
            v2.frames[v].page_id == old_page_id,
            self@.table == (if old_page_id.0 != 0 { v2.table.remove(old_page_id.0) } else { v2.table }),
            self@.capacity == v2.capacity,
            self@.page_size == v2.page_size,
            0 <= self@.clock_hand < self@.capacity,
            self@.frames.len() == v2.frames.len(),
            self@.frames[v].page_id == v2.frames[v].page_id,
            self@.frames[v].data.len() == v2.frames[v].data.len(),
            forall|j: int| 0 <= j < v2.frames.len() && j != v ==> #[trigger] self@.frames[j] == v2.frames[j],
        ensures
            pool_wf(self@),
    {
        let s = self@;
        assert forall|j: int| 0 <= j < s.frames.len() implies (#[trigger] s.frames[j]).data.len() == s.page_size
            && page_offset(s.frames[j].page_id, s.page_size) + s.page_size <= usize::MAX by {
            if j != v {
                assert(s.frames[j] == v2.frames[j]);
            }
        }
        assert forall|k: u64| #[trigger] s.table.contains_key(k) implies s.table[k] < s.capacity by {
            assert(v2.table.contains_key(k));
        }
        assert forall|k: u64| #[trigger] s.table.contains_key(k) && k != 0 implies s.frames[s.table[k] as int].page_id.0 == k by {
            assert(v2.table.contains_key(k));
            let i = v2.table[k] as int;
            if i == v {
                assert(v2.frames[v].page_id.0 == k);
                assert(k == old_page_id.0);
            } else {
                assert(s.frames[i] == v2.frames[i]);
            }
        }
    }

    proof fn lemma_wf_after_fill(&self, v0: BufferPoolView, v: int)
        requires
            pool_wf(v0),
            0 <= v < v0.capacity,
            pool_victim(v0) matches Some((w, fr)) && w == v && self@ == (BufferPoolView {
                frames: fr.update(v, self@.frames[v]),
                table: retabled(v0.table, fr[v], self@.frames[v].page_id, v),
                clock_hand: (v + 1) % v0.capacity,
                ..v0
            }),
            self@.frames[v].data.len() == v0.page_size,
            page_offset(self@.frames[v].page_id, v0.page_size) + v0.page_size <= usize::MAX,
        ensures
            pool_wf(self@),
    {
        let s = self@;
        let (w, fr) = pool_victim(v0).unwrap();
        lemma_clock_sweep_effect(v0.frames, v0.clock_hand, (2 * v0.capacity) as nat);
        vstd::arithmetic::div_mod::lemma_mod_pos_bound(v + 1, v0.capacity);
        assert forall|j: int| 0 <= j < s.frames.len() implies (#[trigger] s.frames[j]).data.len() == s.page_size
            && page_offset(s.frames[j].page_id, s.page_size) + s.page_size <= usize::MAX by {
            if j != v {
                assert(s.frames[j] == fr[j]);
                assert(fr[j].data == v0.frames[j].data && fr[j].page_id == v0.frames[j].page_id);
            }
        }
        let pid = s.frames[v].page_id;
        assert forall|k: u64| #[trigger] s.table.contains_key(k) implies s.table[k] < s.capacity by {
            if k != pid.0 {
                assert(v0.table.contains_key(k));
            }
        }
        assert forall|k: u64| #[trigger] s.table.contains_key(k) && k != 0 implies s.frames[s.table[k] as int].page_id.0 == k by {
            if k != pid.0 {
                assert(v0.table.contains_key(k));
                let i = v0.table[k] as int;
                assert(s.table[k] == i);
                if i == v {
                    assert(v0.frames[v].page_id.0 == k);
                    assert(fr[v].page_id == v0.frames[v].page_id);
                    assert(false);
                } else {
                    assert(s.frames[i] == fr[i]);
                    assert(fr[i].page_id == v0.frames[i].page_id);
                }
            }
        }
    }
}

} // verus!

verus! {

/// The frames with every dirty flag cleared.
pub open spec fn all_clean(frames: Seq<FrameView>) -> Seq<FrameView> {
    frames.map_values(|f: FrameView| FrameView { dirty: false, ..f })
}

impl BufferPool {
    /// Claims a frame for the new page `page_id` and returns its index.
    ///
    /// The clock picks a victim (failing, with `buffer pool exhausted: all
    /// frames are pinned`, when every frame is pinned), which is written
    /// back when dirty; the frame then holds `page_id` zeroed, dirty, pinned
    /// once and referenced. Fails too when writing the victim back fails.
    pub fn new_page<B: ReadAt + WriteAt + Durability>(&mut self, page_id: PageId, backend: &mut B) -> (r: Result<
        usize,
        StorageError,
    >)
        requires
            old(self).wf(),
            page_offset(page_id, old(self)@.page_size) + old(self)@.page_size <= usize::MAX,
        ensures
            final(self).wf(),
            pool_victim(old(self)@) is None ==> (r matches Err(e) && e.message@
                == "buffer pool exhausted: all frames are pinned"@ && final(self)@ == old(self)@
                && final(backend).contents() == old(backend).contents()),
            pool_victim(old(self)@) matches Some((v, fr)) ==> (r is Err ==> fr[v].dirty),
            pool_victim(old(self)@) matches Some((v, fr)) && !fr[v].dirty ==> r is Ok,
            r matches Ok(i) ==> claimed_new(
                old(self)@,
                final(self)@,
                old(backend).contents(),
                final(backend).contents(),
                page_id,
                i,
            ),
            page_id.0 != 0 && !old(self)@.table.contains_key(page_id.0) && pool_consistent(
                old(self)@,
                old(backend).contents(),
            ) && r is Ok ==> {
                &&& pool_consistent(final(self)@, final(backend).contents())
                &&& page_image(final(self)@, final(backend).contents(), page_id) == Some(
                    crate::backend::zeros(old(self)@.page_size as nat),
                )
                &&& forall|q: PageId|
                    q.0 != 0 && q != page_id && page_image(old(self)@, old(backend).contents(), q) is Some
                        ==> #[trigger] page_image(final(self)@, final(backend).contents(), q) == page_image(
                        old(self)@,
                        old(backend).contents(),
                        q,
                    )
            },
    {
        let ghost v0 = self@;
        let ghost c0 = backend.contents();
        let v = match self.find_victim() {
            Ok(v) => v,
            Err(e) => {
                return Err(e);
            },
        };
        let ghost v1 = self@;
        proof {
            lemma_clock_sweep_effect(v0.frames, v0.clock_hand, (2 * v0.capacity) as nat);
            assert(v1.frames[v as int] == frame_view(self.frames@[v as int]));
        }
        if self.frames[v].dirty {
            match self.flush_frame(v, backend) {
                Ok(()) => {},
                Err(e) => {
                    return Err(e);
                },
            }
        }
        let ghost v2 = self@;
        let ghost c1 = backend.contents();
        proof {
            assert(c1 == after_eviction(c0, v1.frames[v as int], v1.page_size));
            assert(v2.frames[v as int] == frame_view(self.frames@[v as int]));
            assert(v2.table == v0.table);
        }
        let old_page_id = self.frames[v].page_id;
        if !old_page_id.is_null() {
            page_table_remove(&mut self.page_table, old_page_id.0);
        }
        let ps = self.page_size;
        let data = vec![0u8; ps];
        assert(data@ =~= crate::backend::zeros(ps as nat)) by {
            assert forall|k: int| 0 <= k < ps implies data@[k] == 0u8 by {
                assert(vstd::pervasive::cloned::<u8>(0u8, data@[k]));
            }
        }
        self.frames[v].data = data;
        self.frames[v].page_id = page_id;
        self.frames[v].dirty = true;
        self.frames[v].pin_count = 1;
        self.frames[v].reference_bit = true;
        page_table_insert(&mut self.page_table, page_id.0, v);
        proof {
            let nf = FrameView {
                page_id,
                data: crate::backend::zeros(ps as nat),
                dirty: true,
                pin_count: 1,
                reference_bit: true,
            };
            let (vv, fr) = pool_victim(v0).unwrap();
            assert(self@.frames =~= fr.update(v as int, nf)) by {
                assert forall|j: int| 0 <= j < fr.len() && j != v implies #[trigger] self@.frames[j] == fr[j] by {
                    assert(self@.frames[j] == v2.frames[j]);
                    assert(v2.frames[j] == v1.frames[j]);
                }
            }
            assert(self@.table =~= retabled(v0.table, fr[v as int], page_id, v as int));
            assert(self@ =~= (BufferPoolView {
                frames: fr.update(v as int, nf),
                table: retabled(v0.table, fr[v as int], page_id, v as int),
                clock_hand: (v + 1) % v0.capacity,
                ..v0
            }));
            self.lemma_wf_after_fill(v0, v as int);
            if page_id.0 != 0 && !v0.table.contains_key(page_id.0) && pool_consistent(v0, c0) {
                lemma_new_page_transparent(v0, c0, self@, backend.contents(), page_id, v);
            }
        }
        Ok(v)
    }

    /// Writes frame `frame_index` back to `backend` when it is dirty, and
    /// marks it clean; a clean frame is left as it is.
    pub fn flush_page<B: WriteAt + Durability>(&mut self, frame_index: usize, backend: &mut B) -> (r: Result<
        (),
        StorageError,
    >)
        requires
            old(self).wf(),
            frame_index < old(self)@.capacity,
        ensures
            final(self).wf(),
            !old(self)@.frames[frame_index as int].dirty ==> r is Ok && final(self)@ == old(self)@
                && final(backend).contents() == old(backend).contents(),
            old(self)@.frames[frame_index as int].dirty && r is Ok ==> final(self)@ == cleaned(
                old(self)@,
                frame_index as int,
            ) && final(backend).contents() == after_eviction(
                old(backend).contents(),
                old(self)@.frames[frame_index as int],
                old(self)@.page_size,
            ),
            old(self)@.frames[frame_index as int].dirty && r is Err ==> final(self)@ == old(self)@,
            pool_consistent(old(self)@, old(backend).contents()) && r is Ok ==> pool_consistent(
                final(self)@,
                final(backend).contents(),
            ) && images_kept(old(self)@, old(backend).contents(), final(self)@, final(backend).contents()),
    {
        let ghost v0 = self@;
        let ghost c0 = backend.contents();
        let r = self.flush_frame(frame_index, backend);
        proof {
            if pool_consistent(v0, c0) && r is Ok && v0.frames[frame_index as int].dirty {
                lemma_flush_consistent(v0, c0, frame_index as int, self@, backend.contents());
            }
        }
        r
    }

    /// Writes every dirty frame back to `backend`, in frame order, stopping
    /// at the first failure.
    ///
    /// On success every frame is clean and the medium holds each dirty
    /// frame's bytes at its page's offset.
    pub fn flush_all_dirty<B: WriteAt + Durability>(&mut self, backend: &mut B) -> (r: Result<(), StorageError>)
        requires
            old(self).wf(),
        ensures
            final(self).wf(),
            final(self)@.table == old(self)@.table,
            final(self)@.clock_hand == old(self)@.clock_hand,
            final(self)@.capacity == old(self)@.capacity,
            final(self)@.page_size == old(self)@.page_size,
            r is Ok ==> final(self)@.frames == all_clean(old(self)@.frames) && final(backend).contents()
                == flushed_contents(
                old(backend).contents(),
                old(self)@.frames,
                old(self)@.page_size,
                old(self)@.capacity,
            ),
            pool_consistent(old(self)@, old(backend).contents()) && r is Ok ==> pool_consistent(
                final(self)@,
                final(backend).contents(),
            ) && images_kept(old(self)@, old(backend).contents(), final(self)@, final(backend).contents()),
            r is Err ==> exists|j: int| 0 <= j < old(self)@.capacity && #[trigger] old(self)@.frames[j].dirty,
    {
        let ghost v0 = self@;
        let ghost c0 = backend.contents();
        let cap = self.capacity;
        let mut i: usize = 0;
        while i < cap
            invariant
                pool_wf(self@),
                pool_wf(v0),
                v0 == old(self)@,
                c0 == old(backend).contents(),
                cap == v0.capacity,
                i <= cap,
                self@.table == v0.table,
                self@.clock_hand == v0.clock_hand,
                self@.capacity == v0.capacity,
                self@.page_size == v0.page_size,
                forall|j: int| 0 <= j < i ==> #[trigger] self@.frames[j] == (FrameView { dirty: false, ..v0.frames[j] }),
                forall|j: int| i <= j < cap ==> #[trigger] self@.frames[j] == v0.frames[j],
                backend.contents() == flushed_contents(c0, v0.frames, v0.page_size, i as int),
                pool_consistent(v0, c0) ==> pool_consistent(self@, backend.contents()) && images_kept(
                    v0,
                    c0,
                    self@,
                    backend.contents(),
                ),
            decreases cap - i,
        {
            proof {
                assert(self@.frames[i as int] == frame_view(self.frames@[i as int]));
            }
            if self.frames[i].dirty {
                let ghost vb = self@;
                let ghost cb = backend.contents();
                match self.flush_frame(i, backend) {
                    Ok(()) => {},
                    Err(e) => {
                        proof {
                            assert(v0.frames[i as int].dirty);
                        }
                        return Err(e);
                    },
                }
                proof {
                    if pool_consistent(v0, c0) {
                        lemma_flush_consistent(vb, cb, i as int, self@, backend.contents());
                        assert forall|q: PageId| q.0 != 0 && page_image(v0, c0, q) is Some implies #[trigger] page_image(
                            self@,
                            backend.contents(),
                            q,
                        ) == page_image(v0, c0, q) by {
                            assert(page_image(vb, cb, q) == page_image(v0, c0, q));
                        }
                    }
                }
            }
            proof {
                assert(self@.frames[i as int] == (FrameView { dirty: false, ..v0.frames[i as int] }));
            }
            i = i + 1;
        }
        proof {
            assert(self@.frames =~= all_clean(v0.frames));
        }
        Ok(())
    }
}

} // verus!

verus! {

impl BufferPool {
    /// The number of pins held on frame `frame_index`.
    pub fn pin_count(&self, frame_index: usize) -> (r: u32)
        requires
            self.wf(),
            frame_index < self@.capacity,
        ensures
            r == self@.frames[frame_index as int].pin_count,
    {
        proof {
            assert(self@.frames[frame_index as int] == frame_view(self.frames@[frame_index as int]));
        }
        self.frames[frame_index].pin_count
    }

    /// Whether frame `frame_index` was modified since it was last written
    /// back.
    pub fn is_dirty(&self, frame_index: usize) -> (r: bool)
        requires
            self.wf(),
            frame_index < self@.capacity,
        ensures
            r == self@.frames[frame_index as int].dirty,
    {
        proof {
            assert(self@.frames[frame_index as int] == frame_view(self.frames@[frame_index as int]));
        }
        self.frames[frame_index].dirty
    }

    /// Whether frame `frame_index` was used since the clock last passed it.
    pub fn reference_bit(&self, frame_index: usize) -> (r: bool)
        requires
            self.wf(),
            frame_index < self@.capacity,
        ensures
            r == self@.frames[frame_index as int].reference_bit,
    {
        proof {
            assert(self@.frames[frame_index as int] == frame_view(self.frames@[frame_index as int]));
        }
        self.frames[frame_index].reference_bit
    }

    /// Clears the reference bit of frame `frame_index`, so that the clock
    /// takes it at its next pass when it is unpinned.
    pub fn clear_reference_bit(&mut self, frame_index: usize)
        requires
            old(self).wf(),
            frame_index < old(self)@.capacity,
        ensures
            final(self).wf(),
            final(self)@ == (BufferPoolView {
                frames: old(self)@.frames.update(frame_index as int, cleared(old(self)@.frames[frame_index as int])),
                ..old(self)@
            }),
    {
        let ghost v0 = self@;
        proof {
            assert(v0.frames[frame_index as int] == frame_view(self.frames@[frame_index as int]));
        }
        self.frames[frame_index].reference_bit = false;
        proof {
            assert(self@.frames =~= v0.frames.update(frame_index as int, cleared(v0.frames[frame_index as int])));
            assert forall|k: u64| #[trigger] self@.table.contains_key(k) && k != 0 implies self@.frames[self@.table[k] as int].page_id.0 == k by {
                assert(self@.frames[self@.table[k] as int].page_id == v0.frames[v0.table[k] as int].page_id);
            }
            assert forall|j: int| 0 <= j < self@.frames.len() implies (#[trigger] self@.frames[j]).data.len() == self@.page_size
                && page_offset(self@.frames[j].page_id, self@.page_size) + self@.page_size <= usize::MAX by {
                assert(self@.frames[j].data == v0.frames[j].data && self@.frames[j].page_id == v0.frames[j].page_id);
            }
        }
    }
}

} // verus!

verus! {

// ---------------------------------------------------------------------------
// The pages as seen through the pool
// ---------------------------------------------------------------------------

/// Frames and table agree both ways: a frame holding a non-null page is the
/// table's frame for that page, so no page is cached twice.
pub open spec fn pool_coherent(v: BufferPoolView) -> bool {
    forall|i: int|
        0 <= i < v.frames.len() && (#[trigger] v.frames[i]).page_id.0 != 0 ==> v.table.contains_key(
            v.frames[i].page_id.0,
        ) && v.table[v.frames[i].page_id.0] == i
}

/// Every clean frame holding a non-null page holds that page's bytes on the
/// medium `c`.
pub open spec fn pool_synced(v: BufferPoolView, c: Seq<u8>) -> bool {
    forall|i: int|
        0 <= i < v.frames.len() && (#[trigger] v.frames[i]).page_id.0 != 0 && !v.frames[i].dirty ==> {
            let off = page_offset(v.frames[i].page_id, v.page_size);
            &&& off + v.page_size <= c.len()
            &&& c.subrange(off, off + v.page_size) == v.frames[i].data
        }
}

/// The bytes of page `p` as seen through the pool over the medium `c`: its
/// frame's bytes when it is cached, else the medium's when the medium holds
/// the whole page.
pub open spec fn page_image(v: BufferPoolView, c: Seq<u8>, p: PageId) -> Option<Seq<u8>> {
    if v.table.contains_key(p.0) {
        Some(v.frames[v.table[p.0] as int].data)
    } else {
        let off = page_offset(p, v.page_size);
        if off + v.page_size <= c.len() {
            Some(c.subrange(off, off + v.page_size))
        } else {
            None
        }
    }
}

/// Every non-null page that had an image over `(v0, c0)` has the same one
/// over `(v1, c1)`.
pub open spec fn images_kept(v0: BufferPoolView, c0: Seq<u8>, v1: BufferPoolView, c1: Seq<u8>) -> bool {
    forall|q: PageId|
        q.0 != 0 && page_image(v0, c0, q) is Some ==> #[trigger] page_image(v1, c1, q) == page_image(v0, c0, q)
}

/// No frame is pinned so often that one more pin would overflow.
pub open spec fn pins_below_max(v: BufferPoolView) -> bool {
    forall|i: int| 0 <= i < v.frames.len() ==> (#[trigger] v.frames[i]).pin_count < u32::MAX
}

/// The pool keeps its pages consistent with the medium: coherent, and its
/// clean frames in step with `c`.
pub open spec fn pool_consistent(v: BufferPoolView, c: Seq<u8>) -> bool {
    pool_coherent(v) && pool_synced(v, c)
}

proof fn lemma_pages_disjoint(p: u64, q: u64, ps: int)
    requires
        p != q,
        ps >= 0,
    ensures
        p * ps + ps <= q * ps || q * ps + ps <= p * ps,
{
    if p < q {
        assert(p * ps + ps <= q * ps) by (nonlinear_arith)
            requires
                p < q,
                ps >= 0,
        ;
    } else {
        assert(q * ps + ps <= p * ps) by (nonlinear_arith)
            requires
                q < p,
                ps >= 0,
        ;
    }
}

/// Writing a page leaves the bytes of every other page in place.
proof fn lemma_written_elsewhere(c: Seq<u8>, q: u64, d: Seq<u8>, p: u64, ps: int)
    requires
        p != q,
        ps >= 0,
        d.len() == ps,
        p * ps + ps <= c.len(),
    ensures
        p * ps + ps <= written(c, q * ps, d).len(),
        written(c, q * ps, d).subrange(p * ps, p * ps + ps) == c.subrange(p * ps, p * ps + ps),
        written(c, q * ps, d).len() >= c.len(),
{
    lemma_pages_disjoint(p, q, ps);
    assert(0 <= q * ps && 0 <= p * ps) by (nonlinear_arith)
        requires
            ps >= 0,
    ;
    if ps > 0 {
        crate::backend::lemma_read_after_write(c, q * ps, d);
        let w = written(c, q * ps, d);
        assert(w.subrange(p * ps, p * ps + ps) =~= c.subrange(p * ps, p * ps + ps)) by {
            assert forall|k: int| 0 <= k < ps implies #[trigger] w[p * ps + k] == c[p * ps + k] by {
                assert(!(q * ps <= p * ps + k < q * ps + d.len()));
            }
        }
    }
}

/// Writing a page makes the medium hold its bytes.
proof fn lemma_written_here(c: Seq<u8>, q: u64, d: Seq<u8>, ps: int)
    requires
        ps >= 0,
        d.len() == ps,
    ensures
        q * ps + ps <= written(c, q * ps, d).len(),
        written(c, q * ps, d).subrange(q * ps, q * ps + ps) == d,
        written(c, q * ps, d).len() >= c.len(),
{
    assert(0 <= q * ps) by (nonlinear_arith)
        requires
            ps >= 0,
    ;
    if ps > 0 {
        crate::backend::lemma_read_after_write(c, q * ps, d);
    } else {
        assert(q * ps == 0) by (nonlinear_arith)
            requires
                ps == 0,
        ;
        assert(c.subrange(0, 0) =~= d);
    }
}

/// Replacing the clock's victim `w` by a frame `nf` for the uncached page
/// `p` (the victim written back first when dirty) keeps the pool consistent
/// and every other page's image; `p`'s old image, if any, is what the medium
/// then holds at `p`.
proof fn lemma_replace_victim(
    v0: BufferPoolView,
    c0: Seq<u8>,
    fr: Seq<FrameView>,
    w: int,
    nf: FrameView,
    v1: BufferPoolView,
    c1: Seq<u8>,
    p: PageId,
)
    requires
        pool_wf(v0),
        pool_consistent(v0, c0),
        p.0 != 0,
        !v0.table.contains_key(p.0),
        0 <= w < v0.capacity,
        fr.len() == v0.frames.len(),
        forall|i: int|
            0 <= i < fr.len() ==> (#[trigger] fr[i]).page_id == v0.frames[i].page_id && fr[i].data
                == v0.frames[i].data && fr[i].dirty == v0.frames[i].dirty,
        c1 == after_eviction(c0, fr[w], v0.page_size),
        nf.page_id == p,
        nf.data.len() == v0.page_size,
        !nf.dirty ==> page_offset(p, v0.page_size) + v0.page_size <= c1.len() && c1.subrange(
            page_offset(p, v0.page_size),
            page_offset(p, v0.page_size) + v0.page_size,
        ) == nf.data,
        v1.frames == fr.update(w, nf),
        v1.table == retabled(v0.table, fr[w], p, w),
        v1.page_size == v0.page_size,
        v1.capacity == v0.capacity,
    ensures
        pool_consistent(v1, c1),
        c1.len() >= c0.len(),
        forall|q: PageId|
            q.0 != 0 && q != p && page_image(v0, c0, q) is Some ==> #[trigger] page_image(v1, c1, q)
                == page_image(v0, c0, q),
        page_image(v0, c0, p) matches Some(d) ==> {
            let off = page_offset(p, v0.page_size);
            &&& off + v0.page_size <= c1.len()
            &&& c1.subrange(off, off + v0.page_size) == d
        },
{
    let ps = v0.page_size;
    let q = fr[w].page_id;
    assert(fr[w].data.len() == ps);
    assert(v0.frames[w].page_id == q);
    if q.0 != 0 {
        assert(v0.table.contains_key(q.0) && v0.table[q.0] == w);
    }
    // Length of the medium.
    if fr[w].dirty {
        lemma_written_here(c0, q.0, fr[w].data, ps);
    }
    // Coherence.
    assert forall|i: int| 0 <= i < v1.frames.len() && (#[trigger] v1.frames[i]).page_id.0 != 0 implies v1.table.contains_key(
        v1.frames[i].page_id.0,
    ) && v1.table[v1.frames[i].page_id.0] == i by {
        if i != w {
            let r = v0.frames[i].page_id;
            assert(v1.frames[i] == fr[i]);
            assert(v0.table.contains_key(r.0) && v0.table[r.0] == i);
            assert(r != p);
            assert(r != q);
        }
    }
    // Clean frames stay in step.
    assert forall|i: int| 0 <= i < v1.frames.len() && (#[trigger] v1.frames[i]).page_id.0 != 0 && !v1.frames[i].dirty implies {
        let off = page_offset(v1.frames[i].page_id, v1.page_size);
        &&& off + v1.page_size <= c1.len()
        &&& c1.subrange(off, off + v1.page_size) == v1.frames[i].data
    } by {
        if i != w {
            let r = v0.frames[i].page_id;
            assert(v1.frames[i] == fr[i]);
            assert(v0.table.contains_key(r.0) && v0.table[r.0] == i);
            assert(r != q);
            if fr[w].dirty {
                lemma_written_elsewhere(c0, q.0, fr[w].data, r.0, ps);
            }
        }
    }
    // Images of the other pages.
    assert forall|r: PageId| r.0 != 0 && r != p && page_image(v0, c0, r) is Some implies #[trigger] page_image(v1, c1, r)
        == page_image(v0, c0, r) by {
        if v0.table.contains_key(r.0) {
            let j = v0.table[r.0] as int;
            assert(v0.frames[j].page_id.0 == r.0);
            if j == w {
                assert(r == q);
                assert(!v1.table.contains_key(r.0));
                if fr[w].dirty {
                    lemma_written_here(c0, q.0, fr[w].data, ps);
                } else {
                    assert(v0.frames[w].page_id.0 != 0 && !v0.frames[w].dirty);
                }
            } else {
                assert(r != q);
                assert(v1.table.contains_key(r.0) && v1.table[r.0] == j);
                assert(v1.frames[j] == fr[j]);
            }
        } else {
            assert(!v1.table.contains_key(r.0));
            assert(r != q);
            if fr[w].dirty {
                lemma_written_elsewhere(c0, q.0, fr[w].data, r.0, ps);
            }
        }
    }
    // The page itself.
    if page_image(v0, c0, p) is Some {
        assert(p != q);
        if fr[w].dirty {
            lemma_written_elsewhere(c0, q.0, fr[w].data, p.0, ps);
        }
    }
}

} // verus!

verus! {

/// A fetch through a consistent pool is transparent: it returns the
/// fetched page's bytes as they were seen through the pool, and every
/// non-null page keeps its image; the pool stays consistent with the
/// medium.
pub proof fn lemma_fetch_transparent(
    v0: BufferPoolView,
    c0: Seq<u8>,
    v1: BufferPoolView,
    c1: Seq<u8>,
    p: PageId,
    i: usize,
)
    requires
        pool_wf(v0),
        pool_consistent(v0, c0),
        p.0 != 0,
        v0.table.contains_key(p.0) ==> fetched_hit(v0, v1, p, i) && c1 == c0,
        !v0.table.contains_key(p.0) ==> fetched_miss(v0, v1, c0, c1, p, i),
    ensures
        pool_consistent(v1, c1),
        images_kept(v0, c0, v1, c1),
        page_image(v1, c1, p) == Some(v1.frames[i as int].data),
        page_image(v0, c0, p) matches Some(d) ==> v1.frames[i as int].data == d,
{
    if v0.table.contains_key(p.0) {
        let k = v0.table[p.0] as int;
        assert(v1.table == v0.table);
        assert forall|j: int| 0 <= j < v1.frames.len() implies (#[trigger] v1.frames[j]).page_id == v0.frames[j].page_id
            && v1.frames[j].data == v0.frames[j].data && v1.frames[j].dirty == v0.frames[j].dirty by {}
        assert forall|q: PageId| q.0 != 0 && page_image(v0, c0, q) is Some implies #[trigger] page_image(v1, c1, q)
            == page_image(v0, c0, q) by {
            if v0.table.contains_key(q.0) {
                assert(v1.frames[v0.table[q.0] as int].data == v0.frames[v0.table[q.0] as int].data);
            }
        }
    } else {
        let (w, fr) = pool_victim(v0).unwrap();
        lemma_clock_sweep_effect(v0.frames, v0.clock_hand, (2 * v0.capacity) as nat);
        assert forall|j: int| 0 <= j < fr.len() implies (#[trigger] fr[j]).page_id == v0.frames[j].page_id
            && fr[j].data == v0.frames[j].data && fr[j].dirty == v0.frames[j].dirty by {
            assert(fr[j] == v0.frames[j] || fr[j] == cleared(v0.frames[j]));
        }
        let nf = v1.frames[w];
        assert(v1.frames =~= fr.update(w, nf));
        let off = page_offset(p, v0.page_size);
        if v0.page_size == 0 {
            assert(off == 0) by (nonlinear_arith)
                requires
                    off == p.0 * v0.page_size,
                    v0.page_size == 0,
            ;
        }
        assert(nf.data.len() == v0.page_size);
        lemma_replace_victim(v0, c0, fr, w, nf, v1, c1, p);
        assert forall|q: PageId| q.0 != 0 && page_image(v0, c0, q) is Some implies #[trigger] page_image(v1, c1, q)
            == page_image(v0, c0, q) by {
            if q == p {
                assert(v1.table.contains_key(p.0) && v1.table[p.0] == w);
            }
        }
        assert(v1.table.contains_key(p.0) && v1.table[p.0] == w);
    }
}

} // verus!

verus! {

/// Writing back dirty frame `i` keeps a consistent pool consistent, and
/// every page's image.
proof fn lemma_flush_consistent(v0: BufferPoolView, c0: Seq<u8>, i: int, v1: BufferPoolView, c1: Seq<u8>)
    requires
        pool_wf(v0),
        pool_consistent(v0, c0),
        0 <= i < v0.capacity,
        v0.frames[i].dirty,
        v1 == cleaned(v0, i),
        c1 == after_eviction(c0, v0.frames[i], v0.page_size),
    ensures
        pool_consistent(v1, c1),
        images_kept(v0, c0, v1, c1),
{
    let ps = v0.page_size;
    let f = v0.frames[i];
    let q = f.page_id;
    lemma_written_here(c0, q.0, f.data, ps);
    if q.0 != 0 {
        assert(v0.table.contains_key(q.0) && v0.table[q.0] == i);
    }
    assert forall|j: int| 0 <= j < v1.frames.len() && (#[trigger] v1.frames[j]).page_id.0 != 0 implies v1.table.contains_key(
        v1.frames[j].page_id.0,
    ) && v1.table[v1.frames[j].page_id.0] == j by {
        assert(v1.frames[j].page_id == v0.frames[j].page_id);
    }
    assert forall|j: int| 0 <= j < v1.frames.len() && (#[trigger] v1.frames[j]).page_id.0 != 0 && !v1.frames[j].dirty implies {
        let off = page_offset(v1.frames[j].page_id, v1.page_size);
        &&& off + v1.page_size <= c1.len()
        &&& c1.subrange(off, off + v1.page_size) == v1.frames[j].data
    } by {
        if j != i {
            let r = v0.frames[j].page_id;
            assert(v1.frames[j] == v0.frames[j]);
            assert(v0.table.contains_key(r.0) && v0.table[r.0] == j);
            assert(r != q);
            lemma_written_elsewhere(c0, q.0, f.data, r.0, ps);
        }
    }
    assert forall|r: PageId| r.0 != 0 && page_image(v0, c0, r) is Some implies #[trigger] page_image(v1, c1, r)
        == page_image(v0, c0, r) by {
        if v0.table.contains_key(r.0) {
            let j = v0.table[r.0] as int;
            assert(v1.frames[j].data == v0.frames[j].data);
        } else {
            assert(r != q);
            lemma_written_elsewhere(c0, q.0, f.data, r.0, ps);
        }
    }
}

/// A new page claimed through a consistent pool, for a non-null page that
/// is not cached, reads as zeros through the pool, every other non-null
/// page keeping its image; the pool stays consistent with the medium.
pub proof fn lemma_new_page_transparent(
    v0: BufferPoolView,
    c0: Seq<u8>,
    v1: BufferPoolView,
    c1: Seq<u8>,
    p: PageId,
    i: usize,
)
    requires
        pool_wf(v0),
        pool_consistent(v0, c0),
        p.0 != 0,
        !v0.table.contains_key(p.0),
        claimed_new(v0, v1, c0, c1, p, i),
    ensures
        pool_consistent(v1, c1),
        forall|q: PageId|
            q.0 != 0 && q != p && page_image(v0, c0, q) is Some ==> #[trigger] page_image(v1, c1, q)
                == page_image(v0, c0, q),
        page_image(v1, c1, p) == Some(crate::backend::zeros(v0.page_size as nat)),
{
    let (w, fr) = pool_victim(v0).unwrap();
    lemma_clock_sweep_effect(v0.frames, v0.clock_hand, (2 * v0.capacity) as nat);
    assert forall|j: int| 0 <= j < fr.len() implies (#[trigger] fr[j]).page_id == v0.frames[j].page_id
        && fr[j].data == v0.frames[j].data && fr[j].dirty == v0.frames[j].dirty by {
        assert(fr[j] == v0.frames[j] || fr[j] == cleared(v0.frames[j]));
    }
    let nf = v1.frames[w];
    assert(v1.frames =~= fr.update(w, nf));
    lemma_replace_victim(v0, c0, fr, w, nf, v1, c1, p);
    assert(v1.table.contains_key(p.0) && v1.table[p.0] == w);
}

} // verus!

verus! {

/// A page whose pinned frame got new bytes `d` and was then unpinned as
/// dirty reads back as `d` through the pool, every other non-null page
/// keeping its image; the pool stays consistent with the medium.
pub proof fn lemma_write_then_read(v0: BufferPoolView, c: Seq<u8>, i: int, d: Seq<u8>, v2: BufferPoolView)
    requires
        pool_wf(v0),
        pool_consistent(v0, c),
        0 <= i < v0.capacity,
        v0.frames[i].page_id.0 != 0,
        v0.frames[i].pin_count > 0,
        d.len() == v0.page_size,
        v2 == (BufferPoolView {
            frames: v0.frames.update(
                i,
                FrameView { data: d, pin_count: (v0.frames[i].pin_count - 1) as u32, dirty: true, ..v0.frames[i] },
            ),
            ..v0
        }),
    ensures
        pool_wf(v2),
        pool_consistent(v2, c),
        page_image(v2, c, v0.frames[i].page_id) == Some(d),
        forall|q: PageId|
            q.0 != 0 && q != v0.frames[i].page_id ==> #[trigger] page_image(v2, c, q) == page_image(v0, c, q),
{
    let p = v0.frames[i].page_id;
    assert(v0.table.contains_key(p.0) && v0.table[p.0] == i);
    assert forall|j: int| 0 <= j < v2.frames.len() implies (#[trigger] v2.frames[j]).page_id == v0.frames[j].page_id
        && (j != i ==> v2.frames[j] == v0.frames[j]) by {}
    assert forall|q: PageId| q.0 != 0 && q != p implies #[trigger] page_image(v2, c, q) == page_image(v0, c, q) by {
        if v0.table.contains_key(q.0) {
            assert(v0.frames[v0.table[q.0] as int].page_id.0 == q.0);
        }
    }
}

} // verus!
