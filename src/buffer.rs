//! Page frames, the clock-sweep pool and the manager that lends pages.

use std::collections::HashMap;

use vstd::prelude::*;

use crate::disk::{PageId, PAGE_SIZE};

verus! {

broadcast use vstd::std_specs::hash::group_hash_axioms;

/// Failures that the pool itself can report.
#[derive(Debug, Clone, Copy, PartialEq, Eq, Structural)]
pub enum Error {
    /// Every frame of the pool is pinned.
    NoFreeBuffer,
}

/// Index of a frame in the pool.
#[derive(Debug, Default, Clone, Copy, PartialEq, Eq, Structural, Hash)]
pub struct BufferId(pub usize);

/// One cached page: its identity, its bytes and whether they differ from disk.
#[derive(Debug)]
pub struct Buffer {
    pub page_id: PageId,
    pub page: Vec<u8>,
    pub is_dirty: bool,
}

/// The bytes of a page that has never been loaded.
pub open spec fn zero_page() -> Seq<u8> {
    Seq::new(PAGE_SIZE as nat, |i: int| 0u8)
}

fn zeroed_page() -> (r: Vec<u8>)
    ensures
        r@ == zero_page(),
{
    let mut page: Vec<u8> = Vec::new();
    while page.len() < PAGE_SIZE
        invariant
            page.len() <= PAGE_SIZE,
            forall|i: int| 0 <= i < page.len() ==> page@[i] == 0u8,
        decreases PAGE_SIZE - page.len(),
    {
        page.push(0u8);
    }
    assert(page@ =~= zero_page());
    page
}

impl Default for Buffer {
    fn default() -> (r: Self)
        ensures
            r.page_id == PageId(0),
            r.page@ == zero_page(),
            !r.is_dirty,
    {
        Buffer { page_id: PageId(0), page: zeroed_page(), is_dirty: false }
    }
}

/// What a frame holds, as Verus sees it.
pub struct FrameModel {
    /// Clock-sweep usage counter.
    pub usage: nat,
    /// Number of outstanding loans of the frame's buffer.
    pub pins: nat,
    pub page_id: u64,
    pub page: Seq<u8>,
    pub dirty: bool,
}

impl FrameModel {
    pub open spec fn empty() -> FrameModel {
        FrameModel { usage: 0, pins: 0, page_id: 0, page: zero_page(), dirty: false }
    }

    pub open spec fn is_pinned(self) -> bool {
        self.pins > 0
    }

    /// A pinned frame has been used since the sweep last passed it.
    pub open spec fn wf(self) -> bool {
        &&& self.page.len() == PAGE_SIZE
        &&& self.pins > 0 ==> self.usage > 0
    }

    pub open spec fn decremented(self) -> FrameModel {
        FrameModel { usage: (self.usage - 1) as nat, ..self }
    }

    pub open spec fn lent(self) -> FrameModel {
        FrameModel {
            usage: if self.usage < u64::MAX { self.usage + 1 } else { self.usage },
            pins: self.pins + 1,
            ..self
        }
    }

    /// Equal in everything but the usage counter.
    pub open spec fn same_content(self, other: FrameModel) -> bool {
        &&& self.pins == other.pins
        &&& self.page_id == other.page_id
        &&& self.page == other.page
        &&& self.dirty == other.dirty
    }

    pub open spec fn released(self) -> FrameModel {
        FrameModel { pins: (self.pins - 1) as nat, ..self }
    }

    pub open spec fn cleaned(self) -> FrameModel {
        FrameModel { dirty: false, ..self }
    }
}

/// A buffer together with its eviction bookkeeping.
#[derive(Debug)]
pub struct Frame {
    usage_count: u64,
    pin_count: u64,
    buffer: Buffer,
}

impl View for Frame {
    type V = FrameModel;

    closed spec fn view(&self) -> FrameModel {
        FrameModel {
            usage: self.usage_count as nat,
            pins: self.pin_count as nat,
            page_id: self.buffer.page_id.0,
            page: self.buffer.page@,
            dirty: self.buffer.is_dirty,
        }
    }
}

impl Frame {
    fn empty() -> (r: Frame)
        ensures
            r@ == FrameModel::empty(),
    {
        Frame { usage_count: 0, pin_count: 0, buffer: Buffer::default() }
    }
}

/// The cursor position after `cursor` in a pool of `n` frames.
pub open spec fn next_index(cursor: nat, n: nat) -> nat {
    if cursor + 1 >= n {
        0
    } else {
        cursor + 1
    }
}

/// Sum of the usage counters: the sweep lowers it or moves on.
pub open spec fn usage_sum(frames: Seq<FrameModel>) -> nat
    decreases frames.len(),
{
    if frames.len() == 0 {
        0
    } else {
        usage_sum(frames.drop_last()) + frames.last().usage
    }
}

proof fn lemma_usage_sum_decrement(frames: Seq<FrameModel>, i: int)
    requires
        0 <= i < frames.len(),
        frames[i].usage > 0,
    ensures
        usage_sum(frames.update(i, frames[i].decremented())) + 1 == usage_sum(frames),
    decreases frames.len(),
{
    let g = frames.update(i, frames[i].decremented());
    if i == frames.len() - 1 {
        assert(g.drop_last() =~= frames.drop_last());
    } else {
        lemma_usage_sum_decrement(frames.drop_last(), i);
        assert(g.drop_last() =~= frames.drop_last().update(i, frames[i].decremented()));
    }
}

#[via_fn]
proof fn sweep_decreases(frames: Seq<FrameModel>, cursor: nat, streak: nat) {
    if cursor < frames.len() && streak < frames.len() && frames[cursor as int].usage != 0
        && !frames[cursor as int].is_pinned() {
        lemma_usage_sum_decrement(frames, cursor as int);
    }
}

/// The clock-sweep: the chosen victim (if any), the frames with their new
/// usage counters, and the new cursor. `streak` counts the pinned frames seen
/// in a row just before `cursor`.
pub open spec fn sweep(frames: Seq<FrameModel>, cursor: nat, streak: nat) -> (Option<nat>, Seq<
    FrameModel,
>, nat)
    decreases usage_sum(frames), frames.len() - streak,
    via sweep_decreases
{
    let n = frames.len();
    if cursor >= n || streak >= n {
        (None, frames, cursor)
    } else if frames[cursor as int].usage == 0 {
        (Some(cursor), frames, next_index(cursor, n))
    } else if !frames[cursor as int].is_pinned() {
        sweep(
            frames.update(cursor as int, frames[cursor as int].decremented()),
            next_index(cursor, n),
            0,
        )
    } else if streak + 1 >= n {
        (None, frames, cursor)
    } else {
        sweep(frames, next_index(cursor, n), streak + 1)
    }
}

/// Fixed-size array of frames with a clock hand.
pub struct BufferPool {
    buffers: Vec<Frame>,
    next_victim_id: BufferId,
}

impl BufferPool {
    /// The frames, in pool order.
    pub closed spec fn frames(&self) -> Seq<FrameModel> {
        self.buffers@.map_values(|f: Frame| f@)
    }

    /// Index of the next frame the sweep examines.
    pub closed spec fn cursor(&self) -> nat {
        self.next_victim_id.0 as nat
    }

    pub open spec fn wf(&self) -> bool {
        &&& self.cursor() < self.frames().len() || (self.frames().len() == 0 && self.cursor() == 0)
        &&& forall|i: int| 0 <= i < self.frames().len() ==> #[trigger] self.frames()[i].wf()
    }

    pub fn new(pool_size: usize) -> (r: Self)
        ensures
            r.wf(),
            r.frames() == Seq::new(pool_size as nat, |i: int| FrameModel::empty()),
            r.cursor() == 0,
    {
        let mut buffers: Vec<Frame> = Vec::new();
        while buffers.len() < pool_size
            invariant
                buffers.len() <= pool_size,
                forall|i: int| 0 <= i < buffers.len() ==> buffers@[i]@ == FrameModel::empty(),
            decreases pool_size - buffers.len(),
        {
            buffers.push(Frame::empty());
        }
        let r = BufferPool { buffers, next_victim_id: BufferId(0) };
        assert(r.frames() =~= Seq::new(pool_size as nat, |i: int| FrameModel::empty()));
        r
    }

    pub fn size(&self) -> (r: usize)
        ensures
            r == self.frames().len(),
    {
        self.buffers.len()
    }

    fn increment_id(&self, buffer_id: BufferId) -> (r: BufferId)
        requires
            self.frames().len() > 0,
        ensures
            r.0 == (buffer_id.0 + 1) % (self.frames().len() as int),
            r.0 < self.frames().len(),
            buffer_id.0 < self.frames().len() ==> r.0 == next_index(
                buffer_id.0 as nat,
                self.frames().len(),
            ),
    {
        let n = self.size();
        let r = BufferId((buffer_id.0 % n + 1) % n);
        proof {
            let id = buffer_id.0 as int;
            vstd::arithmetic::div_mod::lemma_mod_bound(id, n as int);
            vstd::arithmetic::div_mod::lemma_add_mod_noop_right(1, id, n as int);
            vstd::arithmetic::div_mod::lemma_mod_bound(id % (n as int) + 1, n as int);
            if id < n {
                vstd::arithmetic::div_mod::lemma_small_mod(id as nat, n as nat);
                if id + 1 < n {
                    vstd::arithmetic::div_mod::lemma_small_mod((id + 1) as nat, n as nat);
                } else {
                    vstd::arithmetic::div_mod::lemma_mod_self_0(n as int);
                }
            }
        }
        r
    }

    /// Picks a frame to repurpose by the clock-sweep, or `None` when every
    /// frame is pinned.
    pub fn evict(&mut self) -> (r: Option<BufferId>)
        requires
            old(self).wf(),
        ensures
            final(self).wf(),
            ({
                let (victim, frames, cursor) = sweep(old(self).frames(), old(self).cursor(), 0);
                &&& final(self).frames() == frames
                &&& final(self).cursor() == cursor
                &&& match r {
                    Some(id) => victim == Some(id.0 as nat),
                    None => victim is None,
                }
            }),
            final(self).frames().len() == old(self).frames().len(),
            forall|i: int|
                0 <= i < old(self).frames().len() ==> (#[trigger] final(self).frames()[i]).same_content(
                    old(self).frames()[i],
                ),
            match r {
                Some(id) => id.0 < final(self).frames().len() && final(self).frames()[id.0 as int].usage == 0
                    && !old(self).frames()[id.0 as int].is_pinned(),
                None => true,
            },
    {
        let pool_size = self.size();
        let mut consecutive_pinned: usize = 0;
        if pool_size == 0 {
            return None;
        }
        let ghost goal = sweep(self.frames(), self.cursor(), 0);
        loop
            invariant
                self.wf(),
                self.frames().len() == pool_size,
                old(self).frames().len() == pool_size,
                pool_size > 0,
                consecutive_pinned < pool_size,
                sweep(self.frames(), self.cursor(), consecutive_pinned as nat) == goal,
                goal == sweep(old(self).frames(), old(self).cursor(), 0),
                forall|i: int| 0 <= i < pool_size ==> (#[trigger] self.frames()[i]).same_content(old(self).frames()[i]),
            decreases usage_sum(self.frames()), pool_size - consecutive_pinned,
        {
            let next_victim_id = self.next_victim_id;
            let i = next_victim_id.0;
            let usage = self.buffers[i].usage_count;
            if usage == 0 {
                assert(self.frames()[i as int].wf());
                self.next_victim_id = self.increment_id(next_victim_id);
                return Some(next_victim_id);
            }
            if self.buffers[i].pin_count == 0 {
                proof { lemma_usage_sum_decrement(self.frames(), i as int); }
                let ghost before = self.frames();
                self.buffers[i].usage_count = usage - 1;
                assert(self.frames() =~= before.update(i as int, before[i as int].decremented()));
                proof { lemma_update_keeps_wf(before, i as int, before[i as int].decremented()); }
                consecutive_pinned = 0;
            } else {
                consecutive_pinned += 1;
                if consecutive_pinned >= pool_size {
                    return None;
                }
            }
            self.next_victim_id = self.increment_id(self.next_victim_id);
        }
    }

    /// Lends the frame's buffer out once more: one more pin, one more use.
    pub fn pin(&mut self, buffer_id: BufferId)
        requires
            old(self).wf(),
            buffer_id.0 < old(self).frames().len(),
            old(self).frames()[buffer_id.0 as int].pins < u64::MAX,
        ensures
            final(self).wf(),
            final(self).cursor() == old(self).cursor(),
            final(self).frames() == old(self).frames().update(
                buffer_id.0 as int,
                old(self).frames()[buffer_id.0 as int].lent(),
            ),
    {
        let i = buffer_id.0;
        let ghost before = self.frames();
        let usage = self.buffers[i].usage_count;
        self.buffers[i].usage_count = usage.saturating_add(1);
        self.buffers[i].pin_count = self.buffers[i].pin_count + 1;
        assert(self.frames() =~= before.update(i as int, before[i as int].lent()));
        proof { lemma_update_keeps_wf(before, i as int, before[i as int].lent()); }
    }

    /// Gives back one loan of the frame's buffer.
    pub fn unpin(&mut self, buffer_id: BufferId)
        requires
            old(self).wf(),
            buffer_id.0 < old(self).frames().len(),
            old(self).frames()[buffer_id.0 as int].is_pinned(),
        ensures
            final(self).wf(),
            final(self).cursor() == old(self).cursor(),
            final(self).frames() == old(self).frames().update(
                buffer_id.0 as int,
                old(self).frames()[buffer_id.0 as int].released(),
            ),
    {
        let i = buffer_id.0;
        let ghost before = self.frames();
        self.buffers[i].pin_count = self.buffers[i].pin_count - 1;
        assert(self.frames() =~= before.update(i as int, before[i as int].released()));
        proof { lemma_update_keeps_wf(before, i as int, before[i as int].released()); }
    }

    pub fn usage_count(&self, buffer_id: BufferId) -> (r: u64)
        requires
            buffer_id.0 < self.frames().len(),
        ensures
            r == self.frames()[buffer_id.0 as int].usage,
    {
        self.buffers[buffer_id.0].usage_count
    }

    pub fn pin_count(&self, buffer_id: BufferId) -> (r: u64)
        requires
            buffer_id.0 < self.frames().len(),
        ensures
            r == self.frames()[buffer_id.0 as int].pins,
    {
        self.buffers[buffer_id.0].pin_count
    }

    pub fn next_victim(&self) -> (r: BufferId)
        ensures
            r.0 == self.cursor(),
    {
        self.next_victim_id
    }

}

/// A miss of `fetch_page`: the frame chosen for the page, and the page that
/// must first be written back from it, if its bytes are newer than disk.
#[derive(Debug, Clone, Copy, PartialEq, Eq, Structural)]
pub struct PageLoad {
    pub buffer_id: BufferId,
    pub page_id: PageId,
    pub write_back: Option<PageId>,
}

/// How `fetch_page` resolved a request.
#[derive(Debug, Clone, Copy, PartialEq, Eq, Structural)]
pub enum Fetch {
    /// The page was cached: its frame, now pinned once more.
    Hit(BufferId),
    /// The page must be read from disk and handed to `install_page`.
    Load(PageLoad),
}

/// The page table after the frame `i`, which held `old_page`, took `new_page`.
pub open spec fn retarget(table: Map<u64, usize>, old_page: u64, new_page: u64, i: usize) -> Map<
    u64,
    usize,
> {
    let kept = if table.contains_key(old_page) && table[old_page] == i {
        table.remove(old_page)
    } else {
        table
    };
    kept.insert(new_page, i)
}

/// The frame of a page read from disk: used once, lent once, clean.
pub open spec fn loaded(page_id: u64, page: Seq<u8>) -> FrameModel {
    FrameModel { usage: 1, pins: 1, page_id, page, dirty: false }
}

/// Caches pages in a pool and keeps track of which frame holds which page.
pub struct BufferPoolManager {
    pool: BufferPool,
    page_table: HashMap<u64, usize>,
}

impl BufferPoolManager {
    pub closed spec fn frames(&self) -> Seq<FrameModel> {
        self.pool.frames()
    }

    pub closed spec fn cursor(&self) -> nat {
        self.pool.cursor()
    }

    /// Page id to index of the frame that caches it.
    pub closed spec fn table(&self) -> Map<u64, usize> {
        self.page_table@
    }

    /// Every entry of the page table names a frame that holds that page.
    pub closed spec fn wf(&self) -> bool {
        &&& self.pool.wf()
        &&& forall|p: u64| #[trigger]
            self.page_table@.contains_key(p) ==> {
                &&& self.page_table@[p] < self.pool.frames().len()
                &&& self.pool.frames()[self.page_table@[p] as int].page_id == p
            }
    }

    pub fn new(pool: BufferPool) -> (r: Self)
        requires
            pool.wf(),
        ensures
            r.wf(),
            r.frames() == pool.frames(),
            r.cursor() == pool.cursor(),
            r.table() == Map::<u64, usize>::empty(),
    {
        let page_table: HashMap<u64, usize> = HashMap::new();
        BufferPoolManager { pool, page_table }
    }

    /// Looks a page up. A cached page is pinned and returned at once; for
    /// another the clock-sweep picks a frame, whose old page is to be written
    /// back first when dirty. The frames' contents are not touched here.
    pub fn fetch_page(&mut self, page_id: PageId) -> (r: Result<Fetch, Error>)
        requires
            old(self).wf(),
            forall|i: int| 0 <= i < old(self).frames().len() ==> (#[trigger] old(self).frames()[i]).pins < u64::MAX,
        ensures
            final(self).wf(),
            final(self).table() == old(self).table(),
            old(self).table().contains_key(page_id.0) ==> {
                let i = old(self).table()[page_id.0];
                &&& r == Ok::<Fetch, Error>(Fetch::Hit(BufferId(i)))
                &&& i < final(self).frames().len()
                &&& final(self).frames() == old(self).frames().update(i as int, old(self).frames()[i as int].lent())
                &&& final(self).cursor() == old(self).cursor()
                &&& final(self).frames()[i as int].page_id == page_id.0
            },
            !old(self).table().contains_key(page_id.0) ==> {
                let (victim, frames, cursor) = sweep(old(self).frames(), old(self).cursor(), 0);
                &&& final(self).frames() == frames
                &&& final(self).cursor() == cursor
                &&& frames.len() == old(self).frames().len()
                &&& forall|j: int|
                    0 <= j < frames.len() ==> (#[trigger] frames[j]).same_content(old(self).frames()[j])
                &&& match victim {
                    None => r == Err::<Fetch, Error>(Error::NoFreeBuffer),
                    Some(v) => {
                        &&& v < old(self).frames().len()
                        &&& r == Ok::<Fetch, Error>(Fetch::Load(PageLoad {
                            buffer_id: BufferId(v as usize),
                            page_id,
                            write_back: if frames[v as int].dirty {
                                Some(PageId(frames[v as int].page_id))
                            } else {
                                None
                            },
                        }))
                        &&& !frames[v as int].is_pinned()
                        &&& frames[v as int].same_content(old(self).frames()[v as int])
                    },
                }
            },
    {
        if let Some(found) = self.page_table.get(&page_id.0) {
            let buffer_id = *found;
            self.pool.pin(BufferId(buffer_id));
            return Ok(Fetch::Hit(BufferId(buffer_id)));
        }
        let buffer_id = match self.pool.evict() {
            Some(id) => id,
            None => return Err(Error::NoFreeBuffer),
        };
        let buffer = &self.pool.buffers[buffer_id.0].buffer;
        let write_back = if buffer.is_dirty {
            Some(buffer.page_id)
        } else {
            None
        };
        Ok(Fetch::Load(PageLoad { buffer_id, page_id, write_back }))
    }

    /// Puts the bytes read from disk for a miss into the chosen frame, pins
    /// it, and moves the page table entry over to the new page.
    pub fn install_page(&mut self, load: PageLoad, page: Vec<u8>) -> (r: BufferId)
        requires
            old(self).wf(),
            load.buffer_id.0 < old(self).frames().len(),
            !old(self).frames()[load.buffer_id.0 as int].is_pinned(),
            !old(self).table().contains_key(load.page_id.0),
            page@.len() == PAGE_SIZE,
        ensures
            final(self).wf(),
            r == load.buffer_id,
            final(self).cursor() == old(self).cursor(),
            final(self).frames() == old(self).frames().update(
                r.0 as int,
                loaded(load.page_id.0, page@),
            ),
            final(self).table() == retarget(
                old(self).table(),
                old(self).frames()[r.0 as int].page_id,
                load.page_id.0,
                r.0,
            ),
    {
        let i = load.buffer_id.0;
        let ghost before = self.pool.frames();
        let ghost table_before = self.page_table@;
        let evicted = self.pool.buffers[i].buffer.page_id;
        let frame = &mut self.pool.buffers[i];
        frame.buffer.page_id = load.page_id;
        frame.buffer.is_dirty = false;
        frame.buffer.page = page;
        frame.usage_count = 1;
        frame.pin_count = 1;
        assert(self.pool.frames() =~= before.update(i as int, loaded(load.page_id.0, page@)));
        proof { lemma_update_keeps_wf(before, i as int, loaded(load.page_id.0, page@)); }
        if let Some(holder) = self.page_table.get(&evicted.0) {
            if *holder == i {
                self.page_table.remove(&evicted.0);
            }
        }
        self.page_table.insert(load.page_id.0, i);
        assert(self.page_table@ == retarget(table_before, evicted.0, load.page_id.0, i));
        load.buffer_id
    }

    /// Gives back one loan of a fetched page.
    pub fn unpin_page(&mut self, buffer_id: BufferId)
        requires
            old(self).wf(),
            buffer_id.0 < old(self).frames().len(),
            old(self).frames()[buffer_id.0 as int].is_pinned(),
        ensures
            final(self).wf(),
            final(self).table() == old(self).table(),
            final(self).cursor() == old(self).cursor(),
            final(self).frames() == old(self).frames().update(
                buffer_id.0 as int,
                old(self).frames()[buffer_id.0 as int].released(),
            ),
    {
        self.pool.unpin(buffer_id);
    }

    /// Every frame of a well-formed manager is well formed and the cursor
    /// lies in the pool, so the laws about the clock-sweep apply to it.
    pub proof fn lemma_frames_wf(&self)
        requires
            self.wf(),
        ensures
            all_wf(self.frames()),
            self.cursor() < self.frames().len() || (self.frames().len() == 0 && self.cursor() == 0),
    {
    }

    /// A miss of `fetch_page` fails exactly when every frame is pinned.
    pub proof fn lemma_miss_fails_iff_saturated(&self)
        requires
            self.wf(),
        ensures
            (sweep(self.frames(), self.cursor(), 0).0 is None) <==> all_pinned(self.frames()),
    {
        lemma_saturation(self.frames(), self.cursor());
    }

    pub fn pool_size(&self) -> (r: usize)
        requires
            self.wf(),
        ensures
            r == self.frames().len(),
    {
        self.pool.size()
    }

    /// The frame that caches a page, if any.
    pub fn lookup(&self, page_id: PageId) -> (r: Option<BufferId>)
        requires
            self.wf(),
        ensures
            match r {
                Some(id) => {
                    &&& self.table().contains_key(page_id.0)
                    &&& self.table()[page_id.0] == id.0
                    &&& id.0 < self.frames().len()
                    &&& self.frames()[id.0 as int].page_id == page_id.0
                },
                None => !self.table().contains_key(page_id.0),
            },
    {
        match self.page_table.get(&page_id.0) {
            Some(found) => Some(BufferId(*found)),
            None => None,
        }
    }

    pub fn buffer(&self, buffer_id: BufferId) -> (r: &Buffer)
        requires
            self.wf(),
            buffer_id.0 < self.frames().len(),
        ensures
            r.page_id.0 == self.frames()[buffer_id.0 as int].page_id,
            r.page@ == self.frames()[buffer_id.0 as int].page,
            r.is_dirty == self.frames()[buffer_id.0 as int].dirty,
    {
        &self.pool.buffers[buffer_id.0].buffer
    }

    pub fn pin_count(&self, buffer_id: BufferId) -> (r: u64)
        requires
            self.wf(),
            buffer_id.0 < self.frames().len(),
        ensures
            r == self.frames()[buffer_id.0 as int].pins,
    {
        self.pool.pin_count(buffer_id)
    }

    /// Replaces the bytes of a page held in a frame. Marking the page dirty
    /// is left to the caller.
    pub fn write_page(&mut self, buffer_id: BufferId, page: Vec<u8>)
        requires
            old(self).wf(),
            buffer_id.0 < old(self).frames().len(),
            page@.len() == PAGE_SIZE,
        ensures
            final(self).wf(),
            final(self).table() == old(self).table(),
            final(self).cursor() == old(self).cursor(),
            final(self).frames() == old(self).frames().update(
                buffer_id.0 as int,
                FrameModel { page: page@, ..old(self).frames()[buffer_id.0 as int] },
            ),
    {
        let i = buffer_id.0;
        let ghost before = self.pool.frames();
        self.pool.buffers[i].buffer.page = page;
        assert(self.pool.frames() =~= before.update(i as int, FrameModel { page: page@, ..before[i as int] }));
        proof { lemma_update_keeps_wf(before, i as int, FrameModel { page: page@, ..before[i as int] }); }
    }

    /// Sets the dirty flag of a frame's page.
    pub fn set_dirty(&mut self, buffer_id: BufferId)
        requires
            old(self).wf(),
            buffer_id.0 < old(self).frames().len(),
        ensures
            final(self).wf(),
            final(self).table() == old(self).table(),
            final(self).cursor() == old(self).cursor(),
            final(self).frames() == old(self).frames().update(
                buffer_id.0 as int,
                FrameModel { dirty: true, ..old(self).frames()[buffer_id.0 as int] },
            ),
    {
        let i = buffer_id.0;
        let ghost before = self.pool.frames();
        self.pool.buffers[i].buffer.is_dirty = true;
        assert(self.pool.frames() =~= before.update(i as int, FrameModel { dirty: true, ..before[i as int] }));
        proof { lemma_update_keeps_wf(before, i as int, FrameModel { dirty: true, ..before[i as int] }); }
    }

    /// Clears every dirty flag and returns, in pool order, the frames whose
    /// pages must now be written to disk.
    pub fn flush(&mut self) -> (r: Vec<BufferId>)
        requires
            old(self).wf(),
        ensures
            final(self).wf(),
            final(self).table() == old(self).table(),
            final(self).cursor() == old(self).cursor(),
            final(self).frames() == cleaned_all(old(self).frames()),
            r@.map_values(|b: BufferId| b.0 as nat) == dirty_frames(old(self).frames()),
    {
        let n = self.pool.size();
        let ghost start = self.pool.frames();
        let mut written: Vec<BufferId> = Vec::new();
        let mut i: usize = 0;
        while i < n
            invariant
                self.wf(),
                self.page_table@ == old(self).page_table@,
                self.pool.cursor() == old(self).pool.cursor(),
                start == old(self).pool.frames(),
                n == start.len(),
                i <= n,
                self.pool.frames().len() == n,
                forall|j: int| 0 <= j < i ==> #[trigger] self.pool.frames()[j] == start[j].cleaned(),
                forall|j: int| i <= j < n ==> #[trigger] self.pool.frames()[j] == start[j],
                written@.map_values(|b: BufferId| b.0 as nat) == dirty_frames(start.take(i as int)),
            decreases n - i,
        {
            let ghost before = self.pool.frames();
            let ghost listed = written@;
            assert(start.take(i + 1).drop_last() =~= start.take(i as int));
            if self.pool.buffers[i].buffer.is_dirty {
                written.push(BufferId(i));
                self.pool.buffers[i].buffer.is_dirty = false;
                assert(written@.map_values(|b: BufferId| b.0 as nat) =~= listed.map_values(
                    |b: BufferId| b.0 as nat,
                ).push(i as nat));
            }
            assert(self.pool.frames() =~= before.update(i as int, before[i as int].cleaned()));
            proof { lemma_update_keeps_wf(before, i as int, before[i as int].cleaned()); }
            i += 1;
        }
        assert(start.take(n as int) =~= start);
        assert(self.pool.frames() =~= cleaned_all(start));
        written
    }

}

/// Replacing a frame by one that stays well formed keeps every frame well formed.
proof fn lemma_update_keeps_wf(frames: Seq<FrameModel>, i: int, frame: FrameModel)
    requires
        all_wf(frames),
        0 <= i < frames.len(),
        frames[i].wf() ==> frame.wf(),
    ensures
        all_wf(frames.update(i, frame)),
{
    assert(frames[i].wf());
}

/// Indices of the dirty frames, in pool order.
pub open spec fn dirty_frames(frames: Seq<FrameModel>) -> Seq<nat>
    decreases frames.len(),
{
    if frames.len() == 0 {
        Seq::empty()
    } else {
        let rest = dirty_frames(frames.drop_last());
        if frames.last().dirty {
            rest.push((frames.len() - 1) as nat)
        } else {
            rest
        }
    }
}

/// The frames with every dirty flag cleared.
pub open spec fn cleaned_all(frames: Seq<FrameModel>) -> Seq<FrameModel> {
    frames.map_values(|f: FrameModel| f.cleaned())
}

/// Flushing twice in a row writes nothing the second time: after a flush no
/// frame is dirty.
pub proof fn lemma_flush_idempotent(frames: Seq<FrameModel>)
    ensures
        dirty_frames(cleaned_all(frames)) == Seq::<nat>::empty(),
    decreases frames.len(),
{
    if frames.len() > 0 {
        lemma_flush_idempotent(frames.drop_last());
        assert(cleaned_all(frames).drop_last() =~= cleaned_all(frames.drop_last()));
    }
}

/// The clock-sweep never picks a pinned frame, and changes nothing but usage
/// counters.
pub proof fn lemma_sweep_spares_pinned(frames: Seq<FrameModel>, cursor: nat, streak: nat)
    requires
        all_wf(frames),
    ensures
        sweep(frames, cursor, streak).1.len() == frames.len(),
        forall|j: int|
            0 <= j < frames.len() ==> (#[trigger] sweep(frames, cursor, streak).1[j]).same_content(
                frames[j],
            ),
        match sweep(frames, cursor, streak).0 {
            Some(v) => v < frames.len() && !frames[v as int].is_pinned(),
            None => true,
        },
    decreases usage_sum(frames), frames.len() - streak,
{
    let n = frames.len();
    if cursor >= n || streak >= n {
    } else if frames[cursor as int].usage == 0 {
        assert(frames[cursor as int].wf());
    } else if !frames[cursor as int].is_pinned() {
        let c = cursor as int;
        let g = frames.update(c, frames[c].decremented());
        lemma_usage_sum_decrement(frames, c);
        lemma_update_keeps_wf(frames, c, frames[c].decremented());
        lemma_sweep_spares_pinned(g, next_index(cursor, n), 0);
        assert forall|j: int| 0 <= j < n implies (#[trigger] sweep(frames, cursor, streak).1[j]).same_content(
            frames[j],
        ) by {
            assert(sweep(g, next_index(cursor, n), 0).1[j].same_content(g[j]));
        }
    } else if streak + 1 >= n {
    } else {
        lemma_sweep_spares_pinned(frames, next_index(cursor, n), streak + 1);
    }
}

/// How far `j` lies behind `cursor` on a clock of `n` positions.
spec fn behind(j: int, cursor: int, n: int) -> int {
    if j <= cursor {
        cursor - j
    } else {
        cursor + n - j
    }
}

/// The `streak` positions just behind `cursor` hold pinned frames.
spec fn pinned_streak(frames: Seq<FrameModel>, cursor: nat, streak: nat) -> bool {
    forall|j: int|
        0 <= j < frames.len() && 1 <= #[trigger] behind(j, cursor as int, frames.len() as int) <= streak
            ==> frames[j].is_pinned()
}

pub open spec fn all_wf(frames: Seq<FrameModel>) -> bool {
    forall|i: int| 0 <= i < frames.len() ==> #[trigger] frames[i].wf()
}

pub open spec fn all_pinned(frames: Seq<FrameModel>) -> bool {
    forall|i: int| 0 <= i < frames.len() ==> #[trigger] frames[i].is_pinned()
}

proof fn lemma_sweep_fails_only_when_saturated(frames: Seq<FrameModel>, cursor: nat, streak: nat)
    requires
        all_wf(frames),
        cursor < frames.len(),
        streak < frames.len(),
        pinned_streak(frames, cursor, streak),
    ensures
        sweep(frames, cursor, streak).0 is None ==> all_pinned(frames),
    decreases usage_sum(frames), frames.len() - streak,
{
    let n = frames.len();
    let c = cursor as int;
    if frames[c].usage == 0 {
    } else if !frames[c].is_pinned() {
        let g = frames.update(c, frames[c].decremented());
        lemma_usage_sum_decrement(frames, c);
        assert forall|i: int| 0 <= i < g.len() implies #[trigger] g[i].wf() by {
            assert(frames[i].wf());
        }
        lemma_sweep_fails_only_when_saturated(g, next_index(cursor, n), 0);
        if sweep(frames, cursor, streak).0 is None {
            assert forall|i: int| 0 <= i < n implies #[trigger] frames[i].is_pinned() by {
                assert(g[i].is_pinned());
            }
        }
    } else if streak + 1 >= n {
        assert forall|i: int| 0 <= i < n implies #[trigger] frames[i].is_pinned() by {
            if i != c {
                assert(1 <= behind(i, c, n as int) <= streak);
            }
        }
    } else {
        let next = next_index(cursor, n);
        assert forall|j: int|
            0 <= j < n && 1 <= #[trigger] behind(j, next as int, n as int) <= streak + 1
                implies frames[j].is_pinned() by {
            if j != c {
                assert(1 <= behind(j, c, n as int) <= streak);
            }
        }
        lemma_sweep_fails_only_when_saturated(frames, next, streak + 1);
    }
}

proof fn lemma_sweep_fails_when_saturated(frames: Seq<FrameModel>, cursor: nat, streak: nat)
    requires
        all_wf(frames),
        all_pinned(frames),
        cursor < frames.len(),
    ensures
        sweep(frames, cursor, streak).0 is None,
    decreases frames.len() - streak,
{
    let n = frames.len();
    if streak < n {
        assert(frames[cursor as int].wf());
        assert(frames[cursor as int].is_pinned());
        if streak + 1 < n {
            lemma_sweep_fails_when_saturated(frames, next_index(cursor, n), streak + 1);
        }
    }
}

/// The clock-sweep finds no victim exactly when every frame is pinned: with
/// all frames on loan a miss fails, and once one loan is given back it
/// succeeds.
pub proof fn lemma_saturation(frames: Seq<FrameModel>, cursor: nat)
    requires
        all_wf(frames),
        cursor < frames.len() || (frames.len() == 0 && cursor == 0),
    ensures
        (sweep(frames, cursor, 0).0 is None) <==> all_pinned(frames),
{
    if frames.len() > 0 {
        lemma_sweep_fails_only_when_saturated(frames, cursor, 0);
        if all_pinned(frames) {
            lemma_sweep_fails_when_saturated(frames, cursor, 0);
        }
    }
}

} // verus!
