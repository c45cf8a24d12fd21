use std::collections::HashMap;
use vstd::prelude::*;

use crate::disk::{blocks_sized, DiskManager, PAGE_SIZE};
use crate::error::DbError;

verus! {

broadcast use vstd::std_specs::hash::group_hash_axioms;

/// The number of frames in a buffer pool.
pub const POOL_SIZE: usize = 5;

/// An in-memory slot that caches one block.
#[derive(Debug)]
pub struct Frame {
    data: Vec<u8>,
    dirty: bool,
    pin_count: u64,
    block_number: Option<usize>,
}

/// What a frame holds: its bytes, whether they differ from the disk, how many users
/// hold it, and which block it caches.
pub struct FrameView {
    pub data: Seq<u8>,
    pub dirty: bool,
    pub pin_count: nat,
    pub block_number: Option<usize>,
}

impl View for Frame {
    type V = FrameView;

    closed spec fn view(&self) -> FrameView {
        FrameView {
            data: self.data@,
            dirty: self.dirty,
            pin_count: self.pin_count as nat,
            block_number: self.block_number,
        }
    }
}

/// The frames, the map from cached block to frame, and the frames never used.
#[derive(Debug)]
pub struct BufferPool {
    page_table: HashMap<usize, usize>,
    frames: Vec<Frame>,
    free_frame_ids: Vec<usize>,
}

/// A bounded cache of blocks of the data file, with pinning and eviction.
#[derive(Debug)]
pub struct BufferPoolManager {
    disk_manager: DiskManager,
    buffer_pool: BufferPool,
}

/// Whether some frame caches block `b`.
pub open spec fn resident(frames: Seq<FrameView>, b: int) -> bool {
    exists|i: int| 0 <= i < frames.len() && #[trigger] frames[i].block_number == Some(b as usize)
}

/// The frame that caches block `b`, where one does.
pub open spec fn holder(frames: Seq<FrameView>, b: int) -> int {
    choose|i: int| 0 <= i < frames.len() && #[trigger] frames[i].block_number == Some(b as usize)
}

/// The bytes of every block as the pool's users see them: a cached block's frame, or
/// else the disk.
pub open spec fn content_of(disk: Seq<Seq<u8>>, frames: Seq<FrameView>) -> Seq<Seq<u8>> {
    Seq::new(
        disk.len(),
        |b: int|
            if resident(frames, b) {
                frames[holder(frames, b)].data
            } else {
                disk[b]
            },
    )
}

/// Whether some frame is unpinned, so that a block can be brought in.
pub open spec fn has_unpinned(frames: Seq<FrameView>) -> bool {
    exists|i: int| 0 <= i < frames.len() && #[trigger] frames[i].pin_count == 0
}

/// Whether two frame sequences pin each frame equally often.
pub open spec fn pins_same(f1: Seq<FrameView>, f2: Seq<FrameView>) -> bool {
    &&& f1.len() == f2.len()
    &&& forall|i: int| 0 <= i < f1.len() ==> (#[trigger] f1[i]).pin_count == f2[i].pin_count
}

/// Whether no frame is pinned.
pub open spec fn all_unpinned(frames: Seq<FrameView>) -> bool {
    forall|i: int| 0 <= i < frames.len() ==> #[trigger] frames[i].pin_count == 0
}

/// The shape of a pool that callers rely on: a fixed number of frames of one page each,
/// each caching a distinct block of the disk, and only cached frames pinned or dirty.
pub open spec fn pool_shape(disk: Seq<Seq<u8>>, frames: Seq<FrameView>) -> bool {
    &&& frames.len() == POOL_SIZE
    &&& blocks_sized(disk)
    &&& disk.len() <= usize::MAX
    &&& forall|i: int| 0 <= i < frames.len() ==> (#[trigger] frames[i]).data.len() == PAGE_SIZE
    &&& forall|i: int|
        0 <= i < frames.len() ==> match (#[trigger] frames[i]).block_number {
            Some(b) => b < disk.len(),
            None => frames[i].pin_count == 0 && !frames[i].dirty,
        }
    &&& forall|i: int, j: int|
        0 <= i < frames.len() && 0 <= j < frames.len() && i != j && (#[trigger] frames[i]).block_number
            is Some ==> frames[i].block_number != (#[trigger] frames[j]).block_number
}

/// Two frame sequences that cache the same blocks with the same bytes give the same
/// content.
pub proof fn lemma_content_same(disk: Seq<Seq<u8>>, f1: Seq<FrameView>, f2: Seq<FrameView>)
    requires
        f1.len() == f2.len(),
        forall|i: int|
            0 <= i < f1.len() ==> (#[trigger] f1[i]).block_number == f2[i].block_number && f1[i].data
                == f2[i].data,
        forall|i: int, j: int|
            0 <= i < f1.len() && 0 <= j < f1.len() && i != j && (#[trigger] f1[i]).block_number
                is Some ==> f1[i].block_number != (#[trigger] f1[j]).block_number,
    ensures
        content_of(disk, f1) == content_of(disk, f2),
{
    assert forall|b: int| 0 <= b < disk.len() implies content_of(disk, f1)[b] == content_of(
        disk,
        f2,
    )[b] by {
        if resident(f1, b) {
            let i = holder(f1, b);
            assert(f2[i].block_number == Some(b as usize));
            let j = holder(f2, b);
            assert(f1[j].block_number == Some(b as usize));
        } else {
            if resident(f2, b) {
                let j = holder(f2, b);
                assert(f1[j].block_number == Some(b as usize));
            }
        }
    }
    assert(content_of(disk, f1) =~= content_of(disk, f2));
}

/// A block cached in frame `i` has that frame's bytes as its content.
pub proof fn lemma_content_at_holder(disk: Seq<Seq<u8>>, frames: Seq<FrameView>, i: int)
    requires
        pool_shape(disk, frames),
        0 <= i < frames.len(),
        frames[i].block_number is Some,
    ensures
        content_of(disk, frames)[frames[i].block_number->Some_0 as int] == frames[i].data,
        resident(frames, frames[i].block_number->Some_0 as int),
        holder(frames, frames[i].block_number->Some_0 as int) == i,
{
    let b = frames[i].block_number->Some_0 as int;
    assert(resident(frames, b));
    let h = holder(frames, b);
    if h != i {
        assert(frames[h].block_number != frames[i].block_number);
    }
}

impl BufferPoolManager {
    /// The frames, in order.
    pub closed spec fn frames(&self) -> Seq<FrameView> {
        self.buffer_pool.frames@.map_values(|f: Frame| f@)
    }

    /// The blocks of the data file.
    pub closed spec fn disk(&self) -> Seq<Seq<u8>> {
        self.disk_manager@
    }

    /// The bytes of every block as the pool's users see them.
    pub open spec fn content(&self) -> Seq<Seq<u8>> {
        content_of(self.disk(), self.frames())
    }

    /// The page table maps each cached block to its frame, the free list holds the
    /// frames never used, and a clean frame holds what the disk holds.
    pub closed spec fn tables_agree(&self) -> bool {
        let frames = self.frames();
        let pt = self.buffer_pool.page_table@;
        let free = self.buffer_pool.free_frame_ids@;
        &&& forall|i: int|
            0 <= i < frames.len() ==> match (#[trigger] frames[i]).block_number {
                Some(b) => pt.contains_key(b) && pt[b] == i && (!frames[i].dirty ==> frames[i].data
                    == self.disk()[b as int]),
                None => free.contains(i as usize),
            }
        &&& forall|b: usize|
            #[trigger] pt.contains_key(b) ==> pt[b] < frames.len() && frames[pt[b] as int].block_number
                == Some(b)
        &&& free.no_duplicates()
        &&& forall|k: int|
            0 <= k < free.len() ==> (#[trigger] free[k]) < frames.len() && frames[free[k] as int].block_number
                is None
    }

    /// The pool is well formed.
    pub open spec fn wf(&self) -> bool {
        pool_shape(self.disk(), self.frames()) && self.tables_agree()
    }

    /// A pool of `POOL_SIZE` empty frames over `disk_manager`.
    pub fn new(disk_manager: DiskManager) -> (r: BufferPoolManager)
        requires
            blocks_sized(disk_manager@),
        ensures
            r.wf(),
            r.disk() == disk_manager@,
            r.content() == disk_manager@,
            all_unpinned(r.frames()),
            forall|i: int| 0 <= i < POOL_SIZE ==> (#[trigger] r.frames()[i]).block_number is None,
    {
        let mut frames: Vec<Frame> = Vec::new();
        let mut free_frame_ids: Vec<usize> = Vec::new();
        let mut i: usize = 0;
        while i < POOL_SIZE
            invariant
                i <= POOL_SIZE,
                frames@.len() == i,
                free_frame_ids@ == Seq::new(i as nat, |k: int| k as usize),
                forall|k: int|
                    0 <= k < i ==> (#[trigger] frames@[k])@ == (FrameView {
                        data: frames@[k]@.data,
                        dirty: false,
                        pin_count: 0,
                        block_number: None,
                    }) && frames@[k]@.data.len() == PAGE_SIZE,
            decreases POOL_SIZE - i,
        {
            let mut data: Vec<u8> = Vec::new();
            while data.len() < PAGE_SIZE
                invariant
                    data@.len() <= PAGE_SIZE,
                decreases PAGE_SIZE - data@.len(),
            {
                data.push(0u8);
            }
            frames.push(Frame { data, dirty: false, pin_count: 0, block_number: None });
            free_frame_ids.push(i);
            assert(free_frame_ids@ =~= Seq::new((i + 1) as nat, |k: int| k as usize));
            i = i + 1;
        }
        let _ = disk_manager.block_count();
        let r = BufferPoolManager {
            disk_manager,
            buffer_pool: BufferPool { page_table: HashMap::new(), frames, free_frame_ids },
        };
        assert forall|k: int| 0 <= k < POOL_SIZE implies #[trigger] r.buffer_pool.free_frame_ids@.contains(
            k as usize,
        ) by {
            assert(r.buffer_pool.free_frame_ids@[k] == k as usize);
        }
        assert(r.content() =~= disk_manager@);
        r
    }

    /// The number of blocks in the data file.
    pub fn block_count(&self) -> (r: usize)
        requires
            self.wf(),
        ensures
            r == self.content().len(),
    {
        self.disk_manager.block_count()
    }

    /// The data file under the pool.
    pub fn disk_manager(&self) -> (r: &DiskManager)
        ensures
            r@ == self.disk(),
    {
        &self.disk_manager
    }

    /// Gives up the pool and returns the data file under it.
    pub fn into_disk_manager(self) -> (r: DiskManager)
        ensures
            r@ == self.disk(),
    {
        self.disk_manager
    }

    /// Releases one pin of frame `frame_id`, stopping at no pins, and records whether its
    /// user changed it: the dirty flag is or-ed in, so a frame stays dirty once it is. A
    /// frame that caches no block is left as it is.
    pub fn unpin_frame(&mut self, frame_id: usize, dirty: bool)
        requires
            old(self).wf(),
            frame_id < POOL_SIZE,
        ensures
            final(self).wf(),
            final(self).disk() == old(self).disk(),
            final(self).content() == old(self).content(),
            final(self).frames() == if old(self).frames()[frame_id as int].block_number is Some {
                old(self).frames().update(frame_id as int, frame_view_after(old(self).frames()[frame_id as int], dirty))
            } else {
                old(self).frames()
            },
    {
        let ghost before = self.frames();
        if self.buffer_pool.frames[frame_id].block_number.is_some() {
            let mut frame = Frame { data: Vec::new(), dirty: false, pin_count: 0, block_number: None };
            self.buffer_pool.frames.set_and_swap(frame_id, &mut frame);
            if frame.pin_count > 0 {
                frame.pin_count = frame.pin_count - 1;
            }
            frame.dirty = frame.dirty || dirty;
            self.buffer_pool.frames.set_and_swap(frame_id, &mut frame);
            assert(self.frames() =~= before.update(frame_id as int, frame_view_after(before[frame_id as int], dirty)));
            proof {
                lemma_content_same(self.disk(), before, self.frames());
            }
        }
    }

    /// Whether some frame is unpinned.
    fn has_unpinned_frame(&self) -> (r: bool)
        requires
            self.wf(),
        ensures
            r == has_unpinned(self.frames()),
    {
        let mut i: usize = 0;
        while i < self.buffer_pool.frames.len()
            invariant
                self.wf(),
                i <= self.buffer_pool.frames@.len(),
                forall|k: int| 0 <= k < i ==> (#[trigger] self.frames()[k]).pin_count > 0,
            decreases self.buffer_pool.frames@.len() - i,
        {
            if self.buffer_pool.frames[i].pin_count == 0 {
                assert(self.frames()[i as int].pin_count == 0);
                return true;
            }
            i = i + 1;
        }
        false
    }

    /// Chooses a frame to bring a block into: a never-used frame first, else the first
    /// unpinned one. A never-used frame leaves the free list.
    fn take_victim(&mut self) -> (r: Option<usize>)
        requires
            old(self).wf(),
        ensures
            r is Some <==> has_unpinned(old(self).frames()),
            final(self).frames() == old(self).frames(),
            final(self).disk_manager == old(self).disk_manager,
            final(self).buffer_pool.page_table == old(self).buffer_pool.page_table,
            final(self).buffer_pool.free_frame_ids@.no_duplicates(),
            forall|k: int|
                0 <= k < final(self).buffer_pool.free_frame_ids@.len()
                    ==> old(self).buffer_pool.free_frame_ids@.contains(
                    #[trigger] final(self).buffer_pool.free_frame_ids@[k],
                ),
            r is None ==> final(self).buffer_pool.free_frame_ids@ == old(
                self,
            ).buffer_pool.free_frame_ids@,
            r matches Some(f) ==> {
                &&& f < POOL_SIZE
                &&& old(self).frames()[f as int].pin_count == 0
                &&& (exists|i: int| 0 <= i < POOL_SIZE && (#[trigger] old(self).frames()[i]).block_number is None)
                    ==> old(self).frames()[f as int].block_number is None
                &&& !final(self).buffer_pool.free_frame_ids@.contains(f)
                &&& forall|i: usize|
                    old(self).buffer_pool.free_frame_ids@.contains(i) && i != f
                        ==> #[trigger] final(self).buffer_pool.free_frame_ids@.contains(i)
            },
    {
        let ghost free = self.buffer_pool.free_frame_ids@;
        match self.buffer_pool.free_frame_ids.pop() {
            Some(f) => {
                assert(free[free.len() - 1] == f);
                assert(self.frames()[f as int].pin_count == 0);
                assert(self.buffer_pool.free_frame_ids@ =~= free.drop_last());
                assert forall|i: usize| free.contains(i) && i != f implies #[trigger] self.buffer_pool.free_frame_ids@.contains(i) by {
                    let k = choose|k: int| 0 <= k < free.len() && free[k] == i;
                    assert(self.buffer_pool.free_frame_ids@[k] == i);
                }
                assert forall|k: int| 0 <= k < self.buffer_pool.free_frame_ids@.len() implies free.contains(#[trigger] self.buffer_pool.free_frame_ids@[k]) by {
                    assert(free[k] == self.buffer_pool.free_frame_ids@[k]);
                }
                return Some(f);
            },
            None => {},
        }
        assert forall|i: usize| !(#[trigger] free.contains(i)) by {
            if free.contains(i) {
                let k = choose|k: int| 0 <= k < free.len() && free[k] == i;
            }
        }
        assert forall|i: int| 0 <= i < POOL_SIZE implies (#[trigger] self.frames()[i]).block_number is Some by {
            if self.frames()[i].block_number is None {
                assert(free.contains(i as usize));
            }
        }
        let mut i: usize = 0;
        while i < self.buffer_pool.frames.len()
            invariant
                old(self).wf(),
                self.frames() == old(self).frames(),
                self.buffer_pool.free_frame_ids@ == free,
                self.disk_manager == old(self).disk_manager,
                self.buffer_pool.page_table == old(self).buffer_pool.page_table,
                free.len() == 0,
                free == old(self).buffer_pool.free_frame_ids@,
                forall|j: usize| !(#[trigger] free.contains(j)),
                forall|j: int| 0 <= j < POOL_SIZE ==> (#[trigger] old(self).frames()[j]).block_number is Some,
                i <= self.buffer_pool.frames@.len(),
                forall|k: int| 0 <= k < i ==> (#[trigger] self.frames()[k]).pin_count > 0,
            decreases self.buffer_pool.frames@.len() - i,
        {
            if self.buffer_pool.frames[i].pin_count == 0 {
                assert(self.frames()[i as int].pin_count == 0);
                assert(self.frames().len() == self.buffer_pool.frames@.len());
                assert(!self.buffer_pool.free_frame_ids@.contains(i));
                return Some(i);
            }
            i = i + 1;
        }
        None
    }

    /// Pins block `block_number` and returns its frame and a copy of its bytes. A cached
    /// block gains one pin. Otherwise a frame is chosen, a never-used one first, else the
    /// first unpinned one; its block is written back first if it is dirty; the block is
    /// read into it, clean and with one pin. Fails with `Io` for a block past the end of
    /// the data file and with `PoolExhausted` where no frame can take it; a failed call
    /// changes nothing.
    pub fn fetch_page(&mut self, block_number: usize) -> (r: Result<(usize, Vec<u8>), DbError>)
        requires
            old(self).wf(),
        ensures
            final(self).wf(),
            final(self).content() == old(self).content(),
            r is Ok <==> can_fetch(old(self).frames(), old(self).content().len() as int, block_number as int),
            r matches Err(e) ==> {
                &&& final(self).frames() == old(self).frames()
                &&& final(self).disk() == old(self).disk()
                &&& e == if !resident(old(self).frames(), block_number as int) && block_number
                    >= old(self).content().len() {
                    DbError::Io
                } else {
                    DbError::PoolExhausted
                }
            },
            r matches Ok((f, d)) ==> {
                &&& f < POOL_SIZE
                &&& d@ == old(self).content()[block_number as int]
                &&& final(self).frames()[f as int].block_number == Some(block_number)
                &&& final(self).frames()[f as int].data == d@
                &&& if resident(old(self).frames(), block_number as int) {
                    &&& f == holder(old(self).frames(), block_number as int)
                    &&& final(self).frames()[f as int] == (FrameView {
                        pin_count: old(self).frames()[f as int].pin_count + 1,
                        ..old(self).frames()[f as int]
                    })
                    &&& final(self).disk() == old(self).disk()
                } else {
                    &&& old(self).frames()[f as int].pin_count == 0
                    &&& (exists|i: int| 0 <= i < POOL_SIZE && (#[trigger] old(self).frames()[i]).block_number is None)
                        ==> old(self).frames()[f as int].block_number is None
                    &&& final(self).frames()[f as int].pin_count == 1
                    &&& !final(self).frames()[f as int].dirty
                    &&& final(self).disk() == if old(self).frames()[f as int].dirty {
                        old(self).disk().update(
                            old(self).frames()[f as int].block_number->Some_0 as int,
                            old(self).frames()[f as int].data,
                        )
                    } else {
                        old(self).disk()
                    }
                }
                &&& forall|i: int|
                    0 <= i < POOL_SIZE && i != f ==> #[trigger] final(self).frames()[i] == old(
                        self,
                    ).frames()[i]
            },
            forall|i: int|
                0 <= i < POOL_SIZE && old(self).frames()[i].pin_count > 0
                    ==> #[trigger] final(self).frames()[i].block_number == old(
                    self,
                ).frames()[i].block_number,
    {
        let ghost old_frames = self.frames();
        let ghost old_disk = self.disk();
        match self.buffer_pool.page_table.get(&block_number) {
            Some(fid) => {
                let f = *fid;
                proof {
                    lemma_content_at_holder(old_disk, old_frames, f as int);
                }
                if self.buffer_pool.frames[f].pin_count == 0xffff_ffff_ffff_ffffu64 {
                    return Err(DbError::PoolExhausted);
                }
                let mut frame = Frame { data: Vec::new(), dirty: false, pin_count: 0, block_number: None };
                self.buffer_pool.frames.set_and_swap(f, &mut frame);
                frame.pin_count = frame.pin_count + 1;
                let out = vstd::slice::slice_to_vec(frame.data.as_slice());
                self.buffer_pool.frames.set_and_swap(f, &mut frame);
                let ghost nf = FrameView { pin_count: old_frames[f as int].pin_count + 1, ..old_frames[f as int] };
                assert(self.frames() =~= old_frames.update(f as int, nf));
                proof {
                    lemma_content_same(old_disk, old_frames, self.frames());
                }
                return Ok((f, out));
            },
            None => {},
        }
        assert(!resident(old_frames, block_number as int)) by {
            if resident(old_frames, block_number as int) {
                let h = holder(old_frames, block_number as int);
                assert(self.buffer_pool.page_table@.contains_key(block_number));
            }
        }
        let count = self.disk_manager.block_count();
        if block_number >= count {
            return Err(DbError::Io);
        }
        let f = match self.take_victim() {
            Some(f) => f,
            None => {
                return Err(DbError::PoolExhausted);
            },
        };
        let mut frame = Frame { data: Vec::new(), dirty: false, pin_count: 0, block_number: None };
        self.buffer_pool.frames.set_and_swap(f, &mut frame);
        let ghost victim = frame@;
        assert(victim == old_frames[f as int]);
        if let Some(ob) = frame.block_number {
            if frame.dirty {
                let _ = self.disk_manager.write_page(ob, frame.data.as_slice());
                assert(self.disk_manager@ == old_disk.update(ob as int, victim.data));
            }
            self.buffer_pool.page_table.remove(&ob);
        }
        let ghost disk1 = self.disk_manager@;
        let data = match self.disk_manager.read_page(block_number) {
            Ok(d) => d,
            Err(e) => {
                assert(false);
                return Err(e);
            },
        };
        let out = vstd::slice::slice_to_vec(data.as_slice());
        let mut fresh = Frame { data, dirty: false, pin_count: 1, block_number: Some(block_number) };
        self.buffer_pool.frames.set_and_swap(f, &mut fresh);
        self.buffer_pool.page_table.insert(block_number, f);
        let ghost nf = FrameView { data: old_disk[block_number as int], dirty: false, pin_count: 1, block_number: Some(block_number) };
        let ghost new_frames = old_frames.update(f as int, nf);
        assert(self.frames() =~= new_frames);
        assert(old_disk[block_number as int] == disk1[block_number as int]);
        proof {
            self.lemma_replace_keeps_content(old_disk, old_frames, f as int, block_number as int);
        }
        Ok((f, out))
    }

    /// After frame `f` gives up its block (written back where dirty) and takes the
    /// uncached block `n` from the disk, every block's content is what it was.
    proof fn lemma_replace_keeps_content(&self, old_disk: Seq<Seq<u8>>, old_frames: Seq<FrameView>, f: int, n: int)
        requires
            pool_shape(old_disk, old_frames),
            old_disk.len() <= usize::MAX,
            0 <= f < old_frames.len(),
            0 <= n < old_disk.len(),
            !resident(old_frames, n),
            self.frames() == old_frames.update(f, FrameView { data: old_disk[n], dirty: false, pin_count: 1, block_number: Some(n as usize) }),
            self.disk() == match old_frames[f].block_number {
                Some(ob) => if old_frames[f].dirty { old_disk.update(ob as int, old_frames[f].data) } else { old_disk },
                None => old_disk,
            },
            forall|i: int| 0 <= i < old_frames.len() ==> match (#[trigger] old_frames[i]).block_number {
                Some(b) => !old_frames[i].dirty ==> old_frames[i].data == old_disk[b as int],
                None => true,
            },
        ensures
            self.content() == content_of(old_disk, old_frames),
            pool_shape(self.disk(), self.frames()),
    {
        let frames = self.frames();
        let disk = self.disk();
        let c0 = content_of(old_disk, old_frames);
        let c1 = self.content();
        assert forall|i: int, j: int|
            0 <= i < frames.len() && 0 <= j < frames.len() && i != j && (#[trigger] frames[i]).block_number
                is Some implies frames[i].block_number != (#[trigger] frames[j]).block_number by {
            if i == f {
                if frames[j].block_number == Some(n as usize) {
                    assert(old_frames[j].block_number == Some(n as usize));
                }
            } else if j == f {
                if frames[i].block_number == Some(n as usize) {
                    assert(old_frames[i].block_number == Some(n as usize));
                }
            }
        }
        assert forall|b: int| 0 <= b < disk.len() implies c1[b] == c0[b] by {
            if b == n {
                lemma_content_at_holder(disk, frames, f);
            } else if old_frames[f].block_number == Some(b as usize) {
                lemma_content_at_holder(old_disk, old_frames, f);
                if resident(frames, b) {
                    let h = holder(frames, b);
                    assert(old_frames[h].block_number == Some(b as usize));
                }
            } else {
                if resident(old_frames, b) {
                    let h = holder(old_frames, b);
                    assert(frames[h].block_number == Some(b as usize));
                    lemma_content_at_holder(disk, frames, h);
                    lemma_content_at_holder(old_disk, old_frames, h);
                } else if resident(frames, b) {
                    let h = holder(frames, b);
                    assert(old_frames[h].block_number == Some(b as usize));
                }
            }
        }
        assert(c1 =~= c0);
    }

    /// Replaces the bytes of frame `frame_id`, which caches a block, and marks it dirty:
    /// the block's content becomes `data`.
    pub fn write_frame(&mut self, frame_id: usize, data: &[u8])
        requires
            old(self).wf(),
            frame_id < POOL_SIZE,
            old(self).frames()[frame_id as int].block_number is Some,
            data@.len() == PAGE_SIZE,
        ensures
            final(self).wf(),
            final(self).disk() == old(self).disk(),
            final(self).frames() == old(self).frames().update(
                frame_id as int,
                FrameView { data: data@, dirty: true, ..old(self).frames()[frame_id as int] },
            ),
            final(self).content() == old(self).content().update(
                old(self).frames()[frame_id as int].block_number->Some_0 as int,
                data@,
            ),
    {
        let ghost old_frames = self.frames();
        let ghost disk = self.disk();
        let mut frame = Frame { data: Vec::new(), dirty: false, pin_count: 0, block_number: None };
        self.buffer_pool.frames.set_and_swap(frame_id, &mut frame);
        frame.data = vstd::slice::slice_to_vec(data);
        frame.dirty = true;
        self.buffer_pool.frames.set_and_swap(frame_id, &mut frame);
        let ghost nf = FrameView { data: data@, dirty: true, ..old_frames[frame_id as int] };
        let ghost frames = old_frames.update(frame_id as int, nf);
        assert(self.frames() =~= frames);
        proof {
            let b = old_frames[frame_id as int].block_number->Some_0 as int;
            assert forall|i: int, j: int|
                0 <= i < frames.len() && 0 <= j < frames.len() && i != j && (#[trigger] frames[i]).block_number
                    is Some implies frames[i].block_number != (#[trigger] frames[j]).block_number by {
                assert(old_frames[i].block_number == frames[i].block_number);
                assert(old_frames[j].block_number == frames[j].block_number);
            }
            assert(pool_shape(disk, frames));
            lemma_content_at_holder(disk, frames, frame_id as int);
            lemma_content_at_holder(disk, old_frames, frame_id as int);
            assert forall|c: int| 0 <= c < disk.len() && c != b implies content_of(disk, frames)[c]
                == content_of(disk, old_frames)[c] by {
                if resident(old_frames, c) {
                    let h = holder(old_frames, c);
                    assert(frames[h].block_number == Some(c as usize));
                    lemma_content_at_holder(disk, frames, h);
                    lemma_content_at_holder(disk, old_frames, h);
                } else if resident(frames, c) {
                    let h = holder(frames, c);
                    assert(old_frames[h].block_number == Some(c as usize));
                }
            }
            assert(content_of(disk, frames) =~= content_of(disk, old_frames).update(b, data@));
        }
    }

    /// Appends `data` as a new block of the data file and pins it as `fetch_page` does;
    /// returns the block number, the frame and a copy of the bytes. Fails with `Io` where
    /// `data` is not one page long and with `PoolExhausted` where every frame is pinned;
    /// a failed call changes nothing.
    pub fn new_page(&mut self, data: &[u8]) -> (r: Result<(usize, usize, Vec<u8>), DbError>)
        requires
            old(self).wf(),
        ensures
            final(self).wf(),
            r is Ok <==> data@.len() == PAGE_SIZE && has_unpinned(old(self).frames()),
            r matches Err(e) ==> {
                &&& final(self).frames() == old(self).frames()
                &&& final(self).disk() == old(self).disk()
                &&& e == if data@.len() != PAGE_SIZE {
                    DbError::Io
                } else {
                    DbError::PoolExhausted
                }
            },
            r matches Ok((b, f, d)) ==> {
                &&& b == old(self).content().len()
                &&& final(self).content() == old(self).content().push(data@)
                &&& final(self).disk().len() == old(self).disk().len() + 1
                &&& final(self).disk()[b as int] == data@
                &&& d@ == data@
                &&& f < POOL_SIZE
                &&& old(self).frames()[f as int].pin_count == 0
                &&& final(self).frames()[f as int] == (FrameView {
                    data: data@,
                    dirty: false,
                    pin_count: 1,
                    block_number: Some(b),
                })
                &&& forall|i: int|
                    0 <= i < POOL_SIZE && i != f ==> #[trigger] final(self).frames()[i] == old(
                        self,
                    ).frames()[i]
            },
    {
        if data.len() != PAGE_SIZE {
            return Err(DbError::Io);
        }
        if !self.has_unpinned_frame() {
            return Err(DbError::PoolExhausted);
        }
        let ghost old_frames = self.frames();
        let ghost old_disk = self.disk();
        let ghost old_content = self.content();
        let b = match self.disk_manager.write_new_page(data) {
            Ok(b) => b,
            Err(e) => {
                assert(false);
                return Err(e);
            },
        };
        let count = self.disk_manager.block_count();
        assert(self.frames() == old_frames);
        assert(self.disk() == old_disk.push(data@));
        proof {
            assert(!resident(old_frames, b as int)) by {
                if resident(old_frames, b as int) {
                    let h = holder(old_frames, b as int);
                }
            }
            assert forall|c: int| 0 <= c < old_disk.len() implies self.content()[c] == old_content[c] by {
                if resident(old_frames, c) {
                    let h = holder(old_frames, c);
                }
            }
            assert(self.content() =~= old_content.push(data@));
        }
        match self.fetch_page(b) {
            Ok((f, d)) => Ok((b, f, d)),
            Err(e) => {
                assert(false);
                Err(e)
            },
        }
    }

    /// Writes every cached block's frame to the disk, dirty or not: afterwards the disk
    /// holds the content the pool's users see.
    pub fn flush_all_pages(&mut self) -> (r: Result<(), DbError>)
        requires
            old(self).wf(),
        ensures
            r is Ok,
            final(self).wf(),
            final(self).frames() == old(self).frames(),
            final(self).disk() == old(self).content(),
            final(self).content() == old(self).content(),
    {
        let ghost frames = self.frames();
        let ghost old_disk = self.disk();
        let ghost content = self.content();
        let mut i: usize = 0;
        while i < self.buffer_pool.frames.len()
            invariant
                self.frames() == frames,
                pool_shape(old_disk, frames),
                content == content_of(old_disk, frames),
                self.buffer_pool == old(self).buffer_pool,
                self.disk().len() == old_disk.len(),
                blocks_sized(self.disk()),
                i <= self.buffer_pool.frames@.len(),
                frames.len() == self.buffer_pool.frames@.len(),
                forall|b: int|
                    0 <= b < old_disk.len() ==> #[trigger] self.disk()[b] == if resident(frames, b)
                        && holder(frames, b) < i {
                        frames[holder(frames, b)].data
                    } else {
                        old_disk[b]
                    },
            decreases self.buffer_pool.frames@.len() - i,
        {
            let ghost d0 = self.disk();
            if let Some(b) = self.buffer_pool.frames[i].block_number {
                proof {
                    lemma_content_at_holder(old_disk, frames, i as int);
                }
                let _ = self.disk_manager.write_page(b, self.buffer_pool.frames[i].data.as_slice());
                assert(self.disk() == d0.update(b as int, frames[i as int].data));
            }
            assert forall|c: int| 0 <= c < old_disk.len() implies #[trigger] self.disk()[c] == if resident(frames, c)
                && holder(frames, c) < i + 1 {
                frames[holder(frames, c)].data
            } else {
                old_disk[c]
            } by {
                if frames[i as int].block_number is Some {
                    lemma_content_at_holder(old_disk, frames, i as int);
                }
            }
            i = i + 1;
        }
        assert(self.disk() =~= content);
        proof {
            assert forall|k: int| 0 <= k < frames.len() implies match (#[trigger] frames[k]).block_number {
                Some(b) => !frames[k].dirty ==> frames[k].data == self.disk()[b as int],
                None => true,
            } by {
                if frames[k].block_number is Some {
                    lemma_content_at_holder(old_disk, frames, k);
                }
            }
            lemma_content_same(self.disk(), frames, frames);
            assert forall|b: int| 0 <= b < content.len() implies #[trigger] content_of(self.disk(), frames)[b] == content[b] by {
                if resident(frames, b) {
                    let h = holder(frames, b);
                    lemma_content_at_holder(old_disk, frames, h);
                }
            }
            assert(content_of(self.disk(), frames) =~= content);
        }
        Ok(())
    }
}

/// Whether fetching block `n` can succeed: a cached block can take one more pin, and an
/// uncached one must exist and find an unpinned frame.
pub open spec fn can_fetch(frames: Seq<FrameView>, len: int, n: int) -> bool {
    if resident(frames, n) {
        frames[holder(frames, n)].pin_count < u64::MAX
    } else {
        n < len && has_unpinned(frames)
    }
}

/// A frame after one unpin: one pin fewer, stopping at none, and dirty where it was or
/// where its user changed it.
pub open spec fn frame_view_after(f: FrameView, dirty: bool) -> FrameView {
    FrameView {
        pin_count: if f.pin_count > 0 { (f.pin_count - 1) as nat } else { 0 },
        dirty: f.dirty || dirty,
        ..f
    }
}

} // verus!
