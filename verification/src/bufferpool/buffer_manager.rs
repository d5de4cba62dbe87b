//! Buffer manager: caches pages of a disk manager in a pool of frames, with
//! pin counts, dirty bits, write-back on eviction, and LRU or CLOCK
//! replacement.

use std::collections::HashMap;

use vstd::prelude::*;

use super::{
    BufferManagerError, DiskManagerTrait, FrameID, MaterializedPage, PageID, PageView,
    BUFFER_POOL_SIZE,
};

verus! {

broadcast use vstd::std_specs::hash::group_hash_axioms;

/// Meta-data of a buffer-manager frame.
#[derive(Clone, Copy, Debug)]
pub struct FrameDescriptor {
    /// Page stored in the frame.
    pub page_id: PageID,
    /// Number of times the page is currently pinned.
    pub pin_count: u16,
    /// Whether the page in memory differs from the page on disk.
    pub dirty: bool,
    /// The CLOCK reference bit.
    pub clock_bit: bool,
    /// Index of the frame.
    pub frame_id: FrameID,
    /// LRU time stamp of the last pin.
    pub time: u64,
}

impl FrameDescriptor {
    /// The descriptor of a frame that holds no page.
    pub open spec fn empty_spec() -> FrameDescriptor {
        FrameDescriptor {
            page_id: PageID(0),
            pin_count: 0,
            dirty: false,
            clock_bit: false,
            frame_id: FrameID(0),
            time: 0,
        }
    }
}

impl Default for FrameDescriptor {
    fn default() -> (fd: Self)
        ensures
            fd == FrameDescriptor::empty_spec(),
    {
        FrameDescriptor {
            page_id: PageID(0),
            pin_count: 0,
            dirty: false,
            clock_bit: false,
            frame_id: FrameID(0),
            time: 0,
        }
    }
}

/// A pool of per-frame values, indexed by [`FrameID`].
pub struct FramePool<T> {
    frames: Vec<T>,
}

impl<T> FramePool<T> {
    /// The values, by frame.
    pub closed spec fn frames(&self) -> Seq<T> {
        self.frames@
    }

    /// A pool holding `frames`.
    pub fn new(frames: Vec<T>) -> (p: Self)
        ensures
            p.frames() == frames@,
    {
        FramePool { frames }
    }

    /// Number of frames.
    pub fn len(&self) -> (n: usize)
        ensures
            n == self.frames().len(),
    {
        self.frames.len()
    }

    /// The value of frame `f`.
    pub fn get(&self, f: FrameID) -> (r: &T)
        requires
            f.0 < self.frames().len(),
        ensures
            *r == self.frames()[f.0 as int],
    {
        &self.frames[f.0]
    }

    /// The value of frame `f`, for update.
    pub fn get_mut(&mut self, f: FrameID) -> (r: &mut T)
        requires
            f.0 < old(self).frames().len(),
        ensures
            *r == old(self).frames()[f.0 as int],
            final(self).frames() == old(self).frames().update(f.0 as int, *final(r)),
    {
        &mut self.frames[f.0]
    }
}

/// Fields of the frame descriptors that a replacement strategy leaves alone.
pub open spec fn same_frames(a: Seq<FrameDescriptor>, b: Seq<FrameDescriptor>) -> bool {
    &&& a.len() == b.len()
    &&& forall|f: int|
        0 <= f < a.len() ==> (#[trigger] a[f]).page_id == b[f].page_id && a[f].pin_count
            == b[f].pin_count && a[f].dirty == b[f].dirty && a[f].frame_id == b[f].frame_id
}

/// A page replacement strategy.
pub trait ReplacementStrategyTrait: Sized {
    /// Whether `on_pin` can run (a counter has room left).
    spec fn pin_ready(&self) -> bool;

    /// Whether `replace` can run over `n` frames.
    spec fn replace_ready(&self, n: nat) -> bool;

    /// The page that `replace` evicts from the frames `fds`, or `None` when
    /// it finds none.
    spec fn victim(&self, fds: Seq<FrameDescriptor>) -> Option<PageID>;

    /// The strategy's state after `replace` ran over the frames `fds`.
    spec fn replaced(&self, fds: Seq<FrameDescriptor>) -> Self;

    /// The strategy's state after `on_pin`.
    spec fn after_pin(&self) -> Self;

    /// Chooses an unpinned frame whose page is evicted; returns its page.
    fn replace(&mut self, fds: &mut FramePool<FrameDescriptor>) -> (r: Result<
        PageID,
        BufferManagerError,
    >)
        requires
            old(self).replace_ready(old(fds).frames().len()),
        ensures
            r == match old(self).victim(old(fds).frames()) {
                Some(p) => Ok::<PageID, BufferManagerError>(p),
                None => Err::<PageID, BufferManagerError>(BufferManagerError::AllPagesPinned),
            },
            *final(self) == old(self).replaced(old(fds).frames()),
            same_frames(old(fds).frames(), final(fds).frames()),
            final(self).pin_ready() == old(self).pin_ready(),
            final(self).replace_ready(old(fds).frames().len()),
            r is Err ==> r == Err::<PageID, BufferManagerError>(BufferManagerError::AllPagesPinned),
            r is Ok ==> exists|f: int|
                0 <= f < old(fds).frames().len() && (#[trigger] old(fds).frames()[f]).pin_count == 0
                    && old(fds).frames()[f].page_id == r->Ok_0,
    ;

    /// Records a pin of the frame described by `frame_descriptor`.
    fn on_pin(&mut self, frame_descriptor: &mut FrameDescriptor)
        requires
            old(self).pin_ready(),
        ensures
            *final(self) == old(self).after_pin(),
            final(frame_descriptor).page_id == old(frame_descriptor).page_id,
            final(frame_descriptor).pin_count == old(frame_descriptor).pin_count,
            final(frame_descriptor).dirty == old(frame_descriptor).dirty,
            final(frame_descriptor).frame_id == old(frame_descriptor).frame_id,
            forall|n: nat| old(self).replace_ready(n) ==> #[trigger] final(self).replace_ready(n),
    ;
}

/// State of LRU replacement: the next time stamp.
pub struct LRUReplacementStrategy {
    global_time: u64,
}

/// Frame `f` may be evicted by LRU: unpinned, stamped before `now`.
pub open spec fn lru_candidate(fds: Seq<FrameDescriptor>, now: u64, f: int) -> bool {
    0 <= f < fds.len() && fds[f].pin_count == 0 && fds[f].time < now
}

/// Frame `f` is the LRU victim: the first candidate with the smallest stamp.
pub open spec fn lru_victim(fds: Seq<FrameDescriptor>, now: u64, f: int) -> bool {
    &&& lru_candidate(fds, now, f)
    &&& forall|g: int| #[trigger] lru_candidate(fds, now, g) ==> fds[f].time <= fds[g].time
    &&& forall|g: int| 0 <= g < f && #[trigger] lru_candidate(fds, now, g) ==> fds[g].time > fds[f].time
}

/// The page of the LRU victim of `fds` at time `now`, if there is one.
pub open spec fn lru_choice(fds: Seq<FrameDescriptor>, now: u64) -> Option<PageID> {
    if exists|f: int| lru_victim(fds, now, f) {
        Some(fds[choose|f: int| lru_victim(fds, now, f)].page_id)
    } else {
        None
    }
}

/// There is at most one LRU victim.
proof fn lemma_lru_victim_unique(fds: Seq<FrameDescriptor>, now: u64, f: int, g: int)
    requires
        lru_victim(fds, now, f),
        lru_victim(fds, now, g),
    ensures
        f == g,
{
    assert(lru_candidate(fds, now, g) && lru_candidate(fds, now, f));
    assert(fds[f].time <= fds[g].time && fds[g].time <= fds[f].time);
    if g < f {
        assert(fds[g].time > fds[f].time);
    } else if f < g {
        assert(fds[f].time > fds[g].time);
    }
}

impl LRUReplacementStrategy {
    /// The next time stamp.
    pub closed spec fn now(&self) -> u64 {
        self.global_time
    }
}

impl Default for LRUReplacementStrategy {
    fn default() -> (s: Self)
        ensures
            s.now() == 0,
            s.pin_ready(),
            s.replace_ready(BUFFER_POOL_SIZE as nat),
    {
        LRUReplacementStrategy { global_time: 0 }
    }
}

impl ReplacementStrategyTrait for LRUReplacementStrategy {
    closed spec fn pin_ready(&self) -> bool {
        self.global_time < u64::MAX
    }

    closed spec fn replace_ready(&self, n: nat) -> bool {
        true
    }

    /// The page of the LRU victim, if there is one.
    open spec fn victim(&self, fds: Seq<FrameDescriptor>) -> Option<PageID> {
        lru_choice(fds, self.now())
    }

    /// Replacement leaves the clock alone.
    open spec fn replaced(&self, fds: Seq<FrameDescriptor>) -> Self {
        *self
    }

    /// A pin advances the clock by one.
    closed spec fn after_pin(&self) -> Self {
        LRUReplacementStrategy { global_time: (self.global_time + 1) as u64 }
    }

    /// Evicts the unpinned frame pinned least recently (the first such frame
    /// among equal stamps).
    fn replace(&mut self, fds: &mut FramePool<FrameDescriptor>) -> (r: Result<
        PageID,
        BufferManagerError,
    >)
        ensures
            final(fds).frames() == old(fds).frames(),
            final(self).now() == old(self).now(),
            r is Ok <==> exists|f: int| lru_candidate(old(fds).frames(), old(self).now(), f),
            r is Ok ==> exists|f: int|
                lru_victim(old(fds).frames(), old(self).now(), f) && r->Ok_0
                    == old(fds).frames()[f].page_id,
    {
        let ghost frames = fds.frames();
        let mut page_id: Option<PageID> = None;
        let mut min_time = self.global_time;
        let ghost mut best: int = -1;
        let n = fds.len();
        let mut i: usize = 0;
        while i < n
            invariant
                n == frames.len(),
                fds.frames() == frames,
                frames == old(fds).frames(),
                self.global_time == old(self).global_time,
                i <= n,
                min_time <= self.global_time,
                page_id is None <==> (forall|g: int| 0 <= g < i ==> !lru_candidate(frames, self.global_time, g)),
                page_id is None ==> min_time == self.global_time,
                page_id is Some ==> 0 <= best < i && lru_candidate(frames, self.global_time, best)
                    && page_id->Some_0 == frames[best].page_id && min_time == frames[best].time
                    && (forall|g: int| 0 <= g < i && #[trigger] lru_candidate(frames, self.global_time, g)
                        ==> frames[best].time <= frames[g].time)
                    && (forall|g: int| 0 <= g < best && #[trigger] lru_candidate(frames, self.global_time, g)
                        ==> frames[g].time > frames[best].time),
            decreases n - i,
        {
            let fd = fds.get(FrameID(i));
            proof {
                assert(lru_candidate(frames, self.global_time, i as int) == (fd.pin_count == 0
                    && fd.time < self.global_time));
            }
            if fd.pin_count == 0 && fd.time < min_time {
                page_id = Some(fd.page_id);
                min_time = fd.time;
                proof {
                    best = i as int;
                }
            }
            i = i + 1;
        }
        proof {
            assert(old(self).now() == self.global_time);
            assert(old(fds).frames() == frames);
            if page_id is Some {
                assert(lru_victim(frames, self.global_time, best));
                assert(lru_victim(old(fds).frames(), old(self).now(), best));
                assert(exists|f: int| lru_candidate(old(fds).frames(), old(self).now(), f));
                let c = choose|f: int| lru_victim(frames, self.global_time, f);
                lemma_lru_victim_unique(frames, self.global_time, c, best);
                assert(lru_choice(frames, self.global_time) == Some(frames[best].page_id));
            } else {
                assert forall|f: int| !lru_candidate(old(fds).frames(), old(self).now(), f) by {
                    if 0 <= f < n {
                        assert(!lru_candidate(frames, self.global_time, f));
                    }
                }
                assert(!(exists|f: int| lru_victim(frames, self.global_time, f)));
                assert(lru_choice(frames, self.global_time) is None);
            }
        }
        match page_id {
            Some(page) => Ok(page),
            None => Err(BufferManagerError::AllPagesPinned),
        }
    }

    /// Stamps the frame with the current time and advances the clock.
    fn on_pin(&mut self, frame_descriptor: &mut FrameDescriptor)
        ensures
            final(frame_descriptor).time == old(self).now(),
            final(frame_descriptor).clock_bit == old(frame_descriptor).clock_bit,
            final(self).now() == old(self).now() + 1,
    {
        frame_descriptor.time = self.global_time;
        self.global_time = self.global_time + 1;
    }
}

/// State of CLOCK replacement: the position of the clock hand.
pub struct ClockReplacementStrategy {
    clock_hand: FrameID,
}

/// Frame visited at step `i` of a sweep of `n` frames starting at `start`.
pub open spec fn clock_pos(start: nat, n: nat, i: nat) -> int {
    (start + i) as int % (n as int)
}

/// The first step `k < n` of the sweep at an unpinned frame whose bit is
/// clear, if any.
pub open spec fn clock_first_clear(fds: Seq<FrameDescriptor>, start: nat, k: nat) -> bool {
    let n = fds.len();
    &&& k < n
    &&& fds[clock_pos(start, n, k)].pin_count == 0
    &&& !fds[clock_pos(start, n, k)].clock_bit
    &&& forall|j: nat| j < k ==> #[trigger] fds[clock_pos(start, n, j)].pin_count != 0
        || fds[clock_pos(start, n, j)].clock_bit
}

/// The first step `k < n` of the sweep at an unpinned frame, if any.
pub open spec fn clock_first_unpinned(fds: Seq<FrameDescriptor>, start: nat, k: nat) -> bool {
    let n = fds.len();
    &&& k < n
    &&& fds[clock_pos(start, n, k)].pin_count == 0
    &&& forall|j: nat| j < k ==> #[trigger] fds[clock_pos(start, n, j)].pin_count != 0
}

proof fn lemma_clock_pos_range(s: nat, n: nat, i: nat)
    requires
        n > 0,
    ensures
        0 <= clock_pos(s, n, i) < n,
{
    vstd::arithmetic::div_mod::lemma_mod_bound((s + i) as int, n as int);
}

proof fn lemma_clock_pos_wrap(s: nat, n: nat, i: nat)
    requires
        n > 0,
        i < 2 * n,
    ensures
        i >= n ==> clock_pos(s, n, i) == clock_pos(s, n, (i - n) as nat),
{
    if i >= n {
        vstd::arithmetic::div_mod::lemma_fundamental_div_mod((s + i - n) as int, n as int);
        vstd::arithmetic::div_mod::lemma_mod_bound((s + i - n) as int, n as int);
        let q = (s + i - n) / (n as int);
        let r = (s + i - n) % (n as int);
        assert((s + i) as int == (q + 1) * n + r) by (nonlinear_arith)
            requires
                (s + i - n) as int == n * q + r,
        ;
        vstd::arithmetic::div_mod::lemma_fundamental_div_mod_converse_mod((s + i) as int, n as int, q + 1, r);
    }
}

proof fn lemma_clock_pos_injective(s: nat, n: nat, i: nat, j: nat)
    requires
        n > 0,
        i < j < n,
    ensures
        clock_pos(s, n, i) != clock_pos(s, n, j),
{
    vstd::arithmetic::div_mod::lemma_fundamental_div_mod((s + i) as int, n as int);
    vstd::arithmetic::div_mod::lemma_fundamental_div_mod((s + j) as int, n as int);
    let qi = (s + i) as int / (n as int);
    let qj = (s + j) as int / (n as int);
    if clock_pos(s, n, i) == clock_pos(s, n, j) {
        assert((j - i) as int == n * (qj - qi)) by (nonlinear_arith)
            requires
                (s + i) as int == n * qi + clock_pos(s, n, i),
                (s + j) as int == n * qj + clock_pos(s, n, j),
                clock_pos(s, n, i) == clock_pos(s, n, j),
        ;
        assert(false) by (nonlinear_arith)
            requires
                (j - i) as int == n * (qj - qi),
                0 < j - i < n,
        ;
    }
}

proof fn lemma_clock_pos_onto(s: nat, n: nat, f: int) -> (j: nat)
    requires
        n > 0,
        0 <= f < n,
    ensures
        j < n,
        clock_pos(s, n, j) == f,
{
    vstd::arithmetic::div_mod::lemma_fundamental_div_mod(s as int, n as int);
    vstd::arithmetic::div_mod::lemma_mod_bound(s as int, n as int);
    let q = s as int / (n as int);
    let r = s as int % (n as int);
    if f >= r {
        let j = (f - r) as nat;
        assert((s + j) as int == q * n + f) by (nonlinear_arith)
            requires
                s as int == n * q + r,
                j == f - r,
        ;
        vstd::arithmetic::div_mod::lemma_fundamental_div_mod_converse_mod((s + j) as int, n as int, q, f);
        j
    } else {
        let j = (f + n - r) as nat;
        assert((s + j) as int == (q + 1) * n + f) by (nonlinear_arith)
            requires
                s as int == n * q + r,
                j == f + n - r,
        ;
        vstd::arithmetic::div_mod::lemma_fundamental_div_mod_converse_mod((s + j) as int, n as int, q + 1, f);
        j
    }
}

/// A sweep changes nothing but reference bits of unpinned frames.
pub open spec fn clock_keeps(old_f: Seq<FrameDescriptor>, new_f: Seq<FrameDescriptor>) -> bool {
    &&& new_f.len() == old_f.len()
    &&& forall|f: int|
        0 <= f < old_f.len() ==> (#[trigger] new_f[f]).time == old_f[f].time && new_f[f].page_id
            == old_f[f].page_id && new_f[f].pin_count == old_f[f].pin_count && new_f[f].dirty
            == old_f[f].dirty && new_f[f].frame_id == old_f[f].frame_id
    &&& forall|f: int|
        0 <= f < old_f.len() && old_f[f].pin_count != 0 ==> #[trigger] new_f[f].clock_bit
            == old_f[f].clock_bit
}

/// When the first lap meets an unpinned frame with a clear bit at step `k`:
/// that frame is evicted, the hand moves past it, and the unpinned frames
/// passed on the way lose their bit.
pub open spec fn clock_when_clear(
    old_f: Seq<FrameDescriptor>,
    new_f: Seq<FrameDescriptor>,
    start: nat,
    hand: nat,
    r: Result<PageID, BufferManagerError>,
) -> bool {
    let n = old_f.len();
    forall|k: nat| #[trigger] clock_first_clear(old_f, start, k) ==> {
        &&& r == Ok::<PageID, BufferManagerError>(old_f[clock_pos(start, n, k)].page_id)
        &&& hand == (clock_pos(start, n, k) + 1) % (n as int)
        &&& forall|j: nat|
            j < k && old_f[clock_pos(start, n, j)].pin_count == 0 ==> !#[trigger] new_f[clock_pos(
                start,
                n,
                j,
            )].clock_bit
        &&& forall|f: int|
            0 <= f < n && (forall|j: nat| j < k ==> clock_pos(start, n, j) != f) ==> #[trigger] new_f[f].clock_bit
                == old_f[f].clock_bit
    }
}

/// When every unpinned frame has its bit set: the first unpinned frame of the
/// sweep is evicted on the second lap, and every unpinned frame lost its bit.
pub open spec fn clock_when_all_set(
    old_f: Seq<FrameDescriptor>,
    new_f: Seq<FrameDescriptor>,
    start: nat,
    hand: nat,
    r: Result<PageID, BufferManagerError>,
) -> bool {
    let n = old_f.len();
    (forall|k: nat| !clock_first_clear(old_f, start, k)) ==> forall|k: nat| #[trigger]
        clock_first_unpinned(old_f, start, k) ==> {
        &&& r == Ok::<PageID, BufferManagerError>(old_f[clock_pos(start, n, k)].page_id)
        &&& hand == (clock_pos(start, n, k) + 1) % (n as int)
        &&& forall|f: int| 0 <= f < n && old_f[f].pin_count == 0 ==> !#[trigger] new_f[f].clock_bit
    }
}

/// When every frame is pinned: nothing changes and the request fails.
pub open spec fn clock_when_all_pinned(
    old_f: Seq<FrameDescriptor>,
    new_f: Seq<FrameDescriptor>,
    start: nat,
    hand: nat,
    r: Result<PageID, BufferManagerError>,
) -> bool {
    (forall|k: nat| !clock_first_unpinned(old_f, start, k)) ==> {
        &&& r == Err::<PageID, BufferManagerError>(BufferManagerError::AllPagesPinned)
        &&& new_f == old_f
        &&& hand == start
    }
}

/// The step of a sweep from `start` at which CLOCK evicts: the first
/// unpinned frame whose bit is clear, else the first unpinned frame, else
/// none.
pub open spec fn clock_step(fds: Seq<FrameDescriptor>, start: nat) -> Option<nat> {
    if exists|k: nat| clock_first_clear(fds, start, k) {
        Some(choose|k: nat| clock_first_clear(fds, start, k))
    } else if exists|k: nat| clock_first_unpinned(fds, start, k) {
        Some(choose|k: nat| clock_first_unpinned(fds, start, k))
    } else {
        None
    }
}

proof fn lemma_clock_outcome(
    old_f: Seq<FrameDescriptor>,
    new_f: Seq<FrameDescriptor>,
    start: nat,
    hand: nat,
    r: Result<PageID, BufferManagerError>,
)
    requires
        old_f.len() > 0,
        clock_when_clear(old_f, new_f, start, hand, r),
        clock_when_all_set(old_f, new_f, start, hand, r),
        clock_when_all_pinned(old_f, new_f, start, hand, r),
    ensures
        r == match clock_step(old_f, start) {
            Some(k) => Ok::<PageID, BufferManagerError>(old_f[clock_pos(start, old_f.len(), k)].page_id),
            None => Err::<PageID, BufferManagerError>(BufferManagerError::AllPagesPinned),
        },
        hand == match clock_step(old_f, start) {
            Some(k) => ((clock_pos(start, old_f.len(), k) + 1) % (old_f.len() as int)) as nat,
            None => start,
        },
{
    if exists|k: nat| clock_first_clear(old_f, start, k) {
        let k = choose|k: nat| clock_first_clear(old_f, start, k);
        assert(clock_first_clear(old_f, start, k));
    } else if exists|k: nat| clock_first_unpinned(old_f, start, k) {
        let k = choose|k: nat| clock_first_unpinned(old_f, start, k);
        assert(clock_first_unpinned(old_f, start, k));
    }
}

impl ClockReplacementStrategy {
    /// The position of the clock hand.
    pub closed spec fn hand(&self) -> nat {
        self.clock_hand.0 as nat
    }
}

impl Default for ClockReplacementStrategy {
    fn default() -> (s: Self)
        ensures
            s.hand() == 0,
            s.pin_ready(),
            s.replace_ready(BUFFER_POOL_SIZE as nat),
    {
        ClockReplacementStrategy { clock_hand: FrameID(0) }
    }
}

impl ReplacementStrategyTrait for ClockReplacementStrategy {
    closed spec fn pin_ready(&self) -> bool {
        true
    }

    /// The page of the frame at the step where the sweep evicts.
    open spec fn victim(&self, fds: Seq<FrameDescriptor>) -> Option<PageID> {
        match clock_step(fds, self.hand()) {
            Some(k) => Some(fds[clock_pos(self.hand(), fds.len(), k)].page_id),
            None => None,
        }
    }

    /// The hand moves just past the evicted frame; it stays when nothing is
    /// evicted.
    closed spec fn replaced(&self, fds: Seq<FrameDescriptor>) -> Self {
        match clock_step(fds, self.hand()) {
            Some(k) => ClockReplacementStrategy {
                clock_hand: FrameID(((clock_pos(self.hand(), fds.len(), k) + 1) % (fds.len() as int)) as usize),
            },
            None => *self,
        }
    }

    /// A pin leaves the hand where it is.
    open spec fn after_pin(&self) -> Self {
        *self
    }

    closed spec fn replace_ready(&self, n: nat) -> bool {
        3 * n <= usize::MAX && self.clock_hand.0 + 2 * n <= usize::MAX
    }

    /// Sweeps at most twice round the frames from the hand: an unpinned frame
    /// with its bit set loses the bit, the first unpinned frame with the bit
    /// clear is evicted and the hand moves past it. Pinned frames are skipped
    /// and keep their bit.
    fn replace(&mut self, fds: &mut FramePool<FrameDescriptor>) -> (r: Result<
        PageID,
        BufferManagerError,
    >)
        ensures
            clock_keeps(old(fds).frames(), final(fds).frames()),
            clock_when_clear(old(fds).frames(), final(fds).frames(), old(self).hand(), final(self).hand(), r),
            clock_when_all_set(old(fds).frames(), final(fds).frames(), old(self).hand(), final(self).hand(), r),
            clock_when_all_pinned(old(fds).frames(), final(fds).frames(), old(self).hand(), final(self).hand(), r),
    {
        let ghost old_f = fds.frames();
        let len = fds.len();
        let start = self.clock_hand.0;
        let ghost n = len as nat;
        let ghost s = start as nat;
        let ghost mut first_unp: Option<nat> = None;
        if len == 0 {
            proof {
                assert(!(exists|k: nat| clock_first_clear(old_f, s, k)));
                assert(!(exists|k: nat| clock_first_unpinned(old_f, s, k)));
            }
            return Err(BufferManagerError::AllPagesPinned);
        }
        let mut i: usize = 0;
        while i < 2 * len
            invariant
                n == len,
                len > 0,
                s == start,
                start == old(self).clock_hand.0,
                start + 2 * len <= usize::MAX,
                3 * len <= usize::MAX,
                self.clock_hand == old(self).clock_hand,
                i <= 2 * len,
                fds.frames().len() == n,
                old_f.len() == n,
                old_f == old(fds).frames(),
                forall|f: int|
                    0 <= f < n ==> (#[trigger] fds.frames()[f]).time == old_f[f].time
                        && fds.frames()[f].page_id == old_f[f].page_id && fds.frames()[f].pin_count
                        == old_f[f].pin_count && fds.frames()[f].dirty == old_f[f].dirty
                        && fds.frames()[f].frame_id == old_f[f].frame_id,
                forall|f: int| 0 <= f < n && #[trigger] fds.frames()[f].clock_bit ==> old_f[f].clock_bit,
                forall|f: int|
                    0 <= f < n && old_f[f].pin_count != 0 ==> #[trigger] fds.frames()[f].clock_bit
                        == old_f[f].clock_bit,
                forall|j: nat|
                    j < i && j < n ==> (#[trigger] old_f[clock_pos(s, n, j)]).pin_count != 0
                        || old_f[clock_pos(s, n, j)].clock_bit,
                forall|j: nat|
                    j < i && j < n && old_f[clock_pos(s, n, j)].pin_count == 0 ==> !(
                    #[trigger] fds.frames()[clock_pos(s, n, j)]).clock_bit,
                forall|f: int|
                    0 <= f < n && (forall|j: nat| j < i && j < n ==> clock_pos(s, n, j) != f)
                        ==> #[trigger] fds.frames()[f].clock_bit == old_f[f].clock_bit,
                forall|j: nat| j + n < i ==> (#[trigger] old_f[clock_pos(s, n, j)]).pin_count != 0,
                match first_unp {
                    Some(k) => clock_first_unpinned(old_f, s, k) && k < i,
                    None => forall|j: nat|
                        j < i && j < n ==> (#[trigger] old_f[clock_pos(s, n, j)]).pin_count != 0,
                },
            decreases 2 * len - i,
        {
            let current_pos = (start + i) % len;
            let ghost step = if i < len { i as nat } else { (i - len) as nat };
            proof {
                lemma_clock_pos_wrap(s, n, i as nat);
                assert(current_pos == clock_pos(s, n, step));
                lemma_clock_pos_range(s, n, step);
            }
            let ghost before = fds.frames();
            let fd = fds.get_mut(FrameID(current_pos));
            if fd.pin_count == 0 {
                if fd.clock_bit {
                    fd.clock_bit = false;
                    proof {
                        if i >= len {
                            assert(old_f[clock_pos(s, n, step)].pin_count == 0);
                            assert(!before[clock_pos(s, n, step)].clock_bit);
                        }
                        assert forall|j: nat| j < i && j < n implies clock_pos(s, n, j) != current_pos by {
                            lemma_clock_pos_injective(s, n, j, i as nat);
                        }
                    }
                } else {
                    self.clock_hand = FrameID((current_pos + 1) % len);
                    let page = fd.page_id;
                    proof {
                        if i < len {
                            assert forall|j: nat| j < i && j < n implies clock_pos(s, n, j)
                                != current_pos by {
                                lemma_clock_pos_injective(s, n, j, i as nat);
                            }
                            assert(before[current_pos as int].clock_bit == old_f[current_pos as int].clock_bit);
                            assert(clock_first_clear(old_f, s, i as nat));
                            assert forall|k: nat| #[trigger] clock_first_clear(old_f, s, k) implies k == i by {
                                if k < i {
                                } else if k > i {
                                    assert(old_f[clock_pos(s, n, i as nat)].pin_count != 0
                                        || old_f[clock_pos(s, n, i as nat)].clock_bit);
                                }
                            }
                            match first_unp {
                                Some(k) => {},
                                None => {
                                    assert(clock_first_unpinned(old_f, s, i as nat));
                                },
                            }
                        } else {
                            assert(forall|j: nat| j < n ==> #[trigger] old_f[clock_pos(s, n, j)].pin_count != 0
                                || old_f[clock_pos(s, n, j)].clock_bit);
                            assert forall|k: nat| !clock_first_clear(old_f, s, k) by {
                                if clock_first_clear(old_f, s, k) {
                                    assert(old_f[clock_pos(s, n, k)].pin_count != 0
                                        || old_f[clock_pos(s, n, k)].clock_bit);
                                }
                            }
                            assert(clock_first_unpinned(old_f, s, step));
                            assert forall|k: nat| #[trigger] clock_first_unpinned(old_f, s, k) implies k == step by {
                                if k < step {
                                    assert(k + n < i);
                                } else if k > step {
                                    assert(old_f[clock_pos(s, n, step)].pin_count != 0);
                                }
                            }
                            assert forall|f: int| 0 <= f < n && old_f[f].pin_count == 0 implies !#[trigger] fds.frames()[f].clock_bit by {
                                let j = lemma_clock_pos_onto(s, n, f);
                            }
                        }
                    }
                    proof {
                        assert(clock_keeps(old_f, fds.frames()));
                        assert(clock_when_all_pinned(old_f, fds.frames(), s, self.hand(), Ok::<PageID, BufferManagerError>(page)));
                        assert(clock_when_all_set(old_f, fds.frames(), s, self.hand(), Ok::<PageID, BufferManagerError>(page)));
                        assert(clock_when_clear(old_f, fds.frames(), s, self.hand(), Ok::<PageID, BufferManagerError>(page)));
                        lemma_clock_outcome(old_f, fds.frames(), s, self.hand(), Ok::<PageID, BufferManagerError>(page));
                    }
                    return Ok(page);
                }
            } else {
                proof {
                    if i < len {
                        match first_unp {
                            Some(k) => {},
                            None => {},
                        }
                    }
                }
            }
            proof {
                assert forall|f: int|
                    0 <= f < n && (forall|j: nat| j < i + 1 && j < n ==> clock_pos(s, n, j) != f)
                        implies #[trigger] fds.frames()[f].clock_bit == old_f[f].clock_bit by {
                    if i < len {
                        assert(clock_pos(s, n, i as nat) != f);
                    }
                }
                if i < len && first_unp is None && old_f[clock_pos(s, n, i as nat)].pin_count == 0 {
                    first_unp = Some(i as nat);
                }
            }
            i = i + 1;
        }
        proof {
            assert forall|f: int| 0 <= f < n implies old_f[f].pin_count != 0 by {
                let j = lemma_clock_pos_onto(s, n, f);
                assert(j + n < i);
            }
            assert forall|k: nat| !clock_first_unpinned(old_f, s, k) by {
                if clock_first_unpinned(old_f, s, k) {
                    lemma_clock_pos_range(s, n, k);
                }
            }
            assert forall|k: nat| !clock_first_clear(old_f, s, k) by {
                if clock_first_clear(old_f, s, k) {
                    lemma_clock_pos_range(s, n, k);
                }
            }
            assert forall|f: int| 0 <= f < n implies fds.frames()[f] == old_f[f] by {
                assert(fds.frames()[f].clock_bit == old_f[f].clock_bit);
            }
            assert(fds.frames() =~= old_f);
            assert(clock_when_all_pinned(old_f, fds.frames(), s, self.hand(), Err::<PageID, BufferManagerError>(BufferManagerError::AllPagesPinned)));
            lemma_clock_outcome(old_f, fds.frames(), s, self.hand(), Err::<PageID, BufferManagerError>(BufferManagerError::AllPagesPinned));
        }
        Err(BufferManagerError::AllPagesPinned)
    }

    /// Sets the reference bit of the frame.
    fn on_pin(&mut self, frame_descriptor: &mut FrameDescriptor)
        ensures
            final(frame_descriptor).clock_bit,
            final(frame_descriptor).time == old(frame_descriptor).time,
    {
        frame_descriptor.clock_bit = true;
    }
}

} // verus!

verus! {

/// The fields of a frame descriptor that pinning and eviction manage.
pub open spec fn frame_core(fd: FrameDescriptor) -> (PageID, u16, bool, FrameID) {
    (fd.page_id, fd.pin_count, fd.dirty, fd.frame_id)
}

/// Caches pages of a disk manager in [`BUFFER_POOL_SIZE`] frames.
///
/// `page_table` maps the id of every resident page to its frame. Page ids
/// start at 1: `last_evict` is `PageID(0)` until a page has been evicted.
pub struct BufferManager<DiskManager: DiskManagerTrait, ReplacementStrategy: ReplacementStrategyTrait> {
    disk_manager: DiskManager,
    replacement_strat: ReplacementStrategy,
    buffer_count: usize,
    pub page_table: HashMap<usize, FrameID>,
    pub frame_descriptors: FramePool<FrameDescriptor>,
    pub pool: FramePool<MaterializedPage>,
    pub last_evict: PageID,
}

impl<DiskManager: DiskManagerTrait, ReplacementStrategy: ReplacementStrategyTrait> BufferManager<
    DiskManager,
    ReplacementStrategy,
> {
    /// Number of occupied frames.
    pub closed spec fn count(&self) -> nat {
        self.buffer_count as nat
    }

    /// The underlying storage.
    pub closed spec fn disk(&self) -> DiskManager {
        self.disk_manager
    }

    /// The replacement strategy.
    pub closed spec fn strategy(&self) -> ReplacementStrategy {
        self.replacement_strat
    }

    /// The frame descriptors.
    pub closed spec fn fds(&self) -> Seq<FrameDescriptor> {
        self.frame_descriptors.frames()
    }

    /// The cached pages.
    pub closed spec fn pages(&self) -> Seq<MaterializedPage> {
        self.pool.frames()
    }

    /// The page table: the frame of each resident page, by page number.
    pub closed spec fn table(&self) -> Map<usize, FrameID> {
        self.page_table@
    }

    /// The page evicted last.
    pub closed spec fn evicted(&self) -> PageID {
        self.last_evict
    }

    /// The page table and the frame descriptors agree: the first `count()`
    /// frames hold the resident pages, each in the frame the table gives,
    /// and the other frames are unpinned and clean.
    pub closed spec fn wf(&self) -> bool {
        let t = self.page_table@;
        let f = self.fds();
        &&& f.len() == BUFFER_POOL_SIZE
        &&& self.pages().len() == BUFFER_POOL_SIZE
        &&& self.buffer_count <= BUFFER_POOL_SIZE
        &&& forall|i: int|
            0 <= i < self.buffer_count ==> t.contains_key((#[trigger] f[i]).page_id.0) && t[f[i].page_id.0]
                == FrameID(i as usize)
        &&& forall|p: usize| #[trigger]
            t.contains_key(p) ==> t[p].0 < self.buffer_count && f[t[p].0 as int].page_id.0 == p
        &&& forall|i: int|
            self.buffer_count <= i < BUFFER_POOL_SIZE ==> (#[trigger] f[i]).pin_count == 0 && !f[i].dirty
    }

    /// Whether page `pid` is cached.
    pub open spec fn resident(&self, pid: PageID) -> bool {
        self.table().contains_key(pid.0)
    }

    /// What a successful pin of `pid` did to everything but the page data:
    /// a resident page is pinned in its frame; otherwise the next unused
    /// frame is taken, or, when all are used, the frame of the page that the
    /// replacement strategy chooses (its victim), whose page is written back
    /// first if dirty and becomes `last_evict`. The strategy then records the
    /// pin.
    pub open spec fn pin_meta(old: &Self, new: &Self, pid: PageID, f: FrameID) -> bool {
        let t = old.table();
        let fd = old.fds();
        let fd2 = new.fds();
        &&& new.wf()
        &&& f.0 < BUFFER_POOL_SIZE
        &&& new.table().contains_key(pid.0) && new.table()[pid.0] == f
        &&& fd2[f.0 as int].page_id == pid
        &&& if t.contains_key(pid.0) {
            &&& f == t[pid.0]
            &&& new.table() == t
            &&& new.count() == old.count()
            &&& new.evicted() == old.evicted()
            &&& new.strategy() == old.strategy().after_pin()
            &&& fd2[f.0 as int].pin_count == fd[f.0 as int].pin_count + 1
            &&& fd2[f.0 as int].dirty == fd[f.0 as int].dirty
            &&& fd2[f.0 as int].frame_id == fd[f.0 as int].frame_id
            &&& forall|g: int| 0 <= g < BUFFER_POOL_SIZE && g != f.0 ==> #[trigger] fd2[g] == fd[g]
            &&& forall|q: PageID| #[trigger] new.disk().stored(q) == old.disk().stored(q)
        } else if old.count() < BUFFER_POOL_SIZE {
            &&& f.0 == old.count()
            &&& new.count() == old.count() + 1
            &&& new.table() == t.insert(pid.0, f)
            &&& new.evicted() == old.evicted()
            &&& new.strategy() == old.strategy().after_pin()
            &&& fd2[f.0 as int].pin_count == 1
            &&& !fd2[f.0 as int].dirty
            &&& fd2[f.0 as int].frame_id == f
            &&& forall|g: int| 0 <= g < BUFFER_POOL_SIZE && g != f.0 ==> #[trigger] fd2[g] == fd[g]
            &&& forall|q: PageID| #[trigger] new.disk().stored(q) == old.disk().stored(q)
        } else {
            &&& old.strategy().victim(fd) == Some(fd[f.0 as int].page_id)
            &&& new.strategy() == old.strategy().replaced(fd).after_pin()
            &&& fd[f.0 as int].pin_count == 0
            &&& new.evicted() == fd[f.0 as int].page_id
            &&& new.count() == old.count()
            &&& new.table() == t.remove(fd[f.0 as int].page_id.0).insert(pid.0, f)
            &&& fd2[f.0 as int].pin_count == 1
            &&& !fd2[f.0 as int].dirty
            &&& fd2[f.0 as int].frame_id == f
            &&& forall|g: int|
                0 <= g < BUFFER_POOL_SIZE && g != f.0 ==> frame_core(#[trigger] fd2[g]) == frame_core(fd[g])
            &&& forall|q: PageID| #[trigger]
                new.disk().stored(q) == if fd[f.0 as int].dirty && q == fd[f.0 as int].page_id {
                    old.pages()[f.0 as int]@
                } else {
                    old.disk().stored(q)
                }
        }
    }

    /// The data a pin of `pid` leaves in frame `f`: the cached page when
    /// `pid` was resident, else page `pid` as stored on disk.
    pub open spec fn pinned_page(old: &Self, pid: PageID, f: FrameID) -> PageView {
        if old.resident(pid) {
            old.pages()[f.0 as int]@
        } else {
            old.disk().stored(pid)
        }
    }

    /// A buffer manager over `disk_manager` with an empty pool.
    pub fn new(disk_manager: DiskManager, replacement_strat: ReplacementStrategy) -> (bm: Self)
        ensures
            bm.wf(),
            bm.fds().len() == BUFFER_POOL_SIZE,
            bm.pages().len() == BUFFER_POOL_SIZE,
            bm.count() == 0,
            bm.table() == Map::<usize, FrameID>::empty(),
            bm.evicted() == PageID(0),
            bm.disk() == disk_manager,
            bm.strategy() == replacement_strat,
            forall|i: int| 0 <= i < BUFFER_POOL_SIZE ==> #[trigger] bm.fds()[i] == FrameDescriptor::empty_spec(),
            forall|i: int| 0 <= i < BUFFER_POOL_SIZE ==> (#[trigger] bm.pages()[i])@ == MaterializedPage::zeroed_view(),
    {
        let mut pages: Vec<MaterializedPage> = Vec::new();
        let mut fds: Vec<FrameDescriptor> = Vec::new();
        let mut i: usize = 0;
        while i < BUFFER_POOL_SIZE
            invariant
                i <= BUFFER_POOL_SIZE,
                pages@.len() == i,
                fds@.len() == i,
                forall|k: int| 0 <= k < i ==> #[trigger] fds@[k] == FrameDescriptor::empty_spec(),
                forall|k: int| 0 <= k < i ==> (#[trigger] pages@[k])@ == MaterializedPage::zeroed_view(),
            decreases BUFFER_POOL_SIZE - i,
        {
            pages.push(MaterializedPage::zeroed());
            fds.push(FrameDescriptor::default());
            i = i + 1;
        }
        let bm = BufferManager {
            disk_manager,
            replacement_strat,
            buffer_count: 0,
            page_table: HashMap::new(),
            frame_descriptors: FramePool::new(fds),
            pool: FramePool::new(pages),
            last_evict: PageID(0),
        };
        proof {
            assert(bm.table() =~= Map::<usize, FrameID>::empty());
        }
        bm
    }

    proof fn lemma_wf_frames_kept(a: &Self, b: &Self)
        requires
            a.wf(),
            b.page_table@ == a.page_table@,
            b.buffer_count == a.buffer_count,
            b.pages().len() == a.pages().len(),
            b.fds().len() == a.fds().len(),
            forall|g: int|
                0 <= g < a.fds().len() ==> (#[trigger] b.fds()[g]).page_id == a.fds()[g].page_id
                    && b.fds()[g].pin_count == a.fds()[g].pin_count && (b.fds()[g].dirty ==> a.fds()[g].dirty),
        ensures
            b.wf(),
    {
        let f = b.fds();
        assert forall|i: int| 0 <= i < b.buffer_count implies b.page_table@.contains_key((#[trigger] f[i]).page_id.0)
            && b.page_table@[f[i].page_id.0] == FrameID(i as usize) by {
            assert(a.fds()[i].page_id == f[i].page_id);
        }
        assert forall|p: usize| #[trigger] b.page_table@.contains_key(p) implies b.page_table@[p].0 < b.buffer_count
            && f[b.page_table@[p].0 as int].page_id.0 == p by {
            assert(a.fds()[a.page_table@[p].0 as int].page_id == f[b.page_table@[p].0 as int].page_id);
        }
        assert forall|i: int| b.buffer_count <= i < BUFFER_POOL_SIZE implies (#[trigger] f[i]).pin_count == 0
            && !f[i].dirty by {
            assert(a.fds()[i].pin_count == 0 && !a.fds()[i].dirty);
        }
    }

    /// Pins page `pid` and returns the frame holding it: see [`Self::pin_meta`].
    ///
    /// A resident page is always pinned. Otherwise, when every frame is used
    /// and pinned, [`BufferManagerError::AllPagesPinned`] is returned. Errors
    /// of the disk manager are handed on; the page table, the cached pages
    /// and the frames' pages and pin counts are then as before (an evicted
    /// page that was written back is left cached and clean).
    pub fn pin_frame(&mut self, pid: PageID) -> (r: Result<FrameID, BufferManagerError>)
        requires
            old(self).wf(),
            old(self).strategy().pin_ready(),
            old(self).strategy().replace_ready(BUFFER_POOL_SIZE as nat),
            old(self).resident(pid) ==> old(self).fds()[old(self).table()[pid.0].0 as int].pin_count
                < u16::MAX,
        ensures
            old(self).resident(pid) ==> r is Ok,
            !old(self).resident(pid) && old(self).count() == BUFFER_POOL_SIZE && old(self).strategy().victim(
                old(self).fds(),
            ) is None ==> r is Err && r->Err_0 == BufferManagerError::AllPagesPinned,
            !old(self).resident(pid) && old(self).count() == BUFFER_POOL_SIZE && (forall|g: int|
                0 <= g < BUFFER_POOL_SIZE ==> #[trigger] old(self).fds()[g].pin_count != 0) ==> r
                == Err::<FrameID, BufferManagerError>(BufferManagerError::AllPagesPinned),
            r is Ok ==> Self::pin_meta(old(self), final(self), pid, r->Ok_0),
            r is Ok ==> final(self).pages().len() == old(self).pages().len(),
            r is Ok ==> final(self).strategy().replace_ready(BUFFER_POOL_SIZE as nat),
            r is Ok ==> final(self).pages()[r->Ok_0.0 as int]@ == Self::pinned_page(old(self), pid, r->Ok_0),
            r is Ok ==> forall|g: int|
                0 <= g < BUFFER_POOL_SIZE && g != r->Ok_0.0 ==> #[trigger] final(self).pages()[g] == old(
                    self,
                ).pages()[g],
            (r == Err::<FrameID, BufferManagerError>(BufferManagerError::AllPagesPinned)) == (!old(
                self,
            ).resident(pid) && old(self).count() == BUFFER_POOL_SIZE && old(self).strategy().victim(old(self).fds())
                is None),
            r is Err ==> {
                &&& final(self).wf()
                &&& final(self).table() == old(self).table()
                &&& final(self).count() == old(self).count()
                &&& final(self).pages() == old(self).pages()
                &&& final(self).evicted() == old(self).evicted()
                &&& final(self).fds().len() == old(self).fds().len()
                &&& forall|g: int|
                    0 <= g < BUFFER_POOL_SIZE ==> (#[trigger] final(self).fds()[g]).page_id == old(self).fds()[g].page_id
                        && final(self).fds()[g].pin_count == old(self).fds()[g].pin_count
                        && final(self).fds()[g].frame_id == old(self).fds()[g].frame_id
                &&& final(self).strategy().pin_ready() == old(self).strategy().pin_ready()
                &&& final(self).strategy().replace_ready(BUFFER_POOL_SIZE as nat)
            },
            r is Err && r != Err::<FrameID, BufferManagerError>(BufferManagerError::AllPagesPinned) ==> (r->Err_0 is DiskManagerError),
    {
        let ghost t0 = self.page_table@;
        let ghost f0 = self.fds();
        let ghost p0 = self.pages();
        let frame: FrameID;
        let mut fd: FrameDescriptor;
        if !self.page_table.contains_key(&pid.0) {
            let mut victim: Option<PageID> = None;
            if self.buffer_count < BUFFER_POOL_SIZE {
                frame = FrameID(self.buffer_count);
            } else {
                let v = match self.replacement_strat.replace(&mut self.frame_descriptors) {
                    Ok(v) => v,
                    Err(e) => {
                        proof {
                            Self::lemma_wf_frames_kept(old(self), self);
                        }
                        return Err(e);
                    },
                };
                proof {
                    let w = choose|w: int|
                        0 <= w < f0.len() && (#[trigger] f0[w]).pin_count == 0 && f0[w].page_id
                            == v;
                    assert(f0[w].page_id == v);
                    assert(t0.contains_key(v.0));
                }
                frame = match self.page_table.get(&v.0) {
                    Some(fr) => *fr,
                    None => FrameID(0),
                };
                proof {
                    let w = choose|w: int|
                        0 <= w < f0.len() && (#[trigger] f0[w]).pin_count == 0 && f0[w].page_id
                            == v;
                    assert(t0[f0[w].page_id.0] == FrameID(w as usize));
                    assert(frame.0 == w);
                }
                victim = Some(v);
            }
            let ghost f1 = self.fds();
            fd = *self.frame_descriptors.get(frame);
            if fd.dirty {
                let written = self.disk_manager.write(fd.page_id, self.pool.get(frame));
                match written {
                    Ok(()) => {},
                    Err(e) => {
                        proof {
                            Self::lemma_wf_frames_kept(old(self), self);
                        }
                        return Err(BufferManagerError::DiskManagerError(e));
                    },
                }
                fd.dirty = false;
                *self.frame_descriptors.get_mut(frame) = fd;
            }
            let mut page = MaterializedPage::zeroed();
            let loaded = self.disk_manager.read(pid, &mut page);
            match loaded {
                Ok(()) => {},
                Err(e) => {
                    proof {
                        Self::lemma_wf_frames_kept(old(self), self);
                    }
                    return Err(BufferManagerError::DiskManagerError(e));
                },
            }
            *self.pool.get_mut(frame) = page;
            match victim {
                None => {
                    self.buffer_count = self.buffer_count + 1;
                },
                Some(v) => {
                    self.last_evict = v;
                    self.page_table.remove(&v.0);
                },
            }
            self.page_table.insert(pid.0, frame);
            fd.frame_id = frame;
            fd.page_id = pid;
        } else {
            frame = match self.page_table.get(&pid.0) {
                Some(fr) => *fr,
                None => FrameID(0),
            };
            fd = *self.frame_descriptors.get(frame);
        }
        self.replacement_strat.on_pin(&mut fd);
        fd.pin_count = fd.pin_count + 1;
        *self.frame_descriptors.get_mut(frame) = fd;
        proof {
            let t = self.page_table@;
            let f = self.fds();
            assert forall|i: int| 0 <= i < self.buffer_count implies t.contains_key(
                (#[trigger] f[i]).page_id.0,
            ) && t[f[i].page_id.0] == FrameID(i as usize) by {
                if i != frame.0 {
                    assert(t0.contains_key(f0[i].page_id.0));
                }
            }
            assert forall|p: usize| #[trigger] t.contains_key(p) implies t[p].0 < self.buffer_count
                && f[t[p].0 as int].page_id.0 == p by {
                if p != pid.0 {
                    assert(t0.contains_key(p));
                }
            }
        }
        Ok(frame)
    }

    /// Pins page `pid` and gives access to its data: the frame is chosen and
    /// filled as [`Self::pin_frame`] does, and edits through the returned
    /// reference land in that frame.
    pub fn pin(&mut self, pid: PageID) -> (r: Result<&mut MaterializedPage, BufferManagerError>)
        requires
            old(self).wf(),
            old(self).strategy().pin_ready(),
            old(self).strategy().replace_ready(BUFFER_POOL_SIZE as nat),
            old(self).resident(pid) ==> old(self).fds()[old(self).table()[pid.0].0 as int].pin_count
                < u16::MAX,
        ensures
            match r {
                Ok(page) => {
                    let f = final(self).table()[pid.0];
                    &&& Self::pin_meta(old(self), final(self), pid, f)
                    &&& final(self).strategy().replace_ready(BUFFER_POOL_SIZE as nat)
                    &&& page@ == Self::pinned_page(old(self), pid, f)
                    &&& final(self).pages() == old(self).pages().update(f.0 as int, *final(page))
                },
                Err(e) => {
                    &&& e == BufferManagerError::AllPagesPinned ==> !old(self).resident(pid)
                        && old(self).count() == BUFFER_POOL_SIZE && old(self).strategy().victim(old(self).fds()) is None
                    &&& e != BufferManagerError::AllPagesPinned ==> (e is DiskManagerError)
                    &&& final(self).wf()
                    &&& final(self).table() == old(self).table()
                    &&& final(self).count() == old(self).count()
                    &&& final(self).pages() == old(self).pages()
                    &&& final(self).evicted() == old(self).evicted()
                    &&& final(self).fds().len() == old(self).fds().len()
                    &&& forall|g: int|
                        0 <= g < BUFFER_POOL_SIZE ==> (#[trigger] final(self).fds()[g]).page_id == old(self).fds()[g].page_id
                            && final(self).fds()[g].pin_count == old(self).fds()[g].pin_count
                            && final(self).fds()[g].frame_id == old(self).fds()[g].frame_id
                },
            },
            old(self).resident(pid) ==> r is Ok,
            !old(self).resident(pid) && old(self).count() == BUFFER_POOL_SIZE && old(self).strategy().victim(
                old(self).fds(),
            ) is None ==> r is Err && r->Err_0 == BufferManagerError::AllPagesPinned,
            !old(self).resident(pid) && old(self).count() == BUFFER_POOL_SIZE && (forall|g: int|
                0 <= g < BUFFER_POOL_SIZE ==> #[trigger] old(self).fds()[g].pin_count != 0) ==> r is Err
                && r->Err_0 == BufferManagerError::AllPagesPinned,
    {
        let frame = match self.pin_frame(pid) {
            Ok(f) => f,
            Err(e) => {
                return Err(e);
            },
        };
        proof {
            assert(self.pages() =~= old(self).pages().update(frame.0 as int, self.pages()[frame.0 as int]));
        }
        let ghost mid = *self;
        let page = self.pool.get_mut(frame);
        proof {
            assert(after_borrow(self).disk() == mid.disk());
        }
        Ok(page)
    }

    /// The frame descriptor `fd` after an unpin that marks it `dirty`.
    pub open spec fn unpinned(fd: FrameDescriptor, dirty: bool) -> FrameDescriptor {
        FrameDescriptor {
            dirty,
            pin_count: if fd.pin_count > 0 {
                (fd.pin_count - 1) as u16
            } else {
                0
            },
            ..fd
        }
    }

    /// What an unpin of resident page `pid` with `dirty` did: only the
    /// descriptor of its frame changed, as [`Self::unpinned`] says.
    pub open spec fn unpin_meta(old: &Self, new: &Self, pid: PageID, dirty: bool) -> bool {
        let f = old.table()[pid.0].0 as int;
        &&& new.wf()
        &&& new.table() == old.table()
        &&& new.count() == old.count()
        &&& new.evicted() == old.evicted()
        &&& new.pages() == old.pages()
        &&& new.disk() == old.disk()
        &&& new.strategy() == old.strategy()
        &&& new.fds() == old.fds().update(f, Self::unpinned(old.fds()[f], dirty))
    }

    /// Unpins page `pid`: its frame is marked `dirty` (or clean), and its pin
    /// count drops by one unless it is already zero.
    pub fn unpin(&mut self, page_id: PageID, dirty: bool)
        requires
            old(self).wf(),
            old(self).resident(page_id),
        ensures
            Self::unpin_meta(old(self), final(self), page_id, dirty),
    {
        let frame = match self.page_table.get(&page_id.0) {
            Some(fr) => *fr,
            None => FrameID(0),
        };
        let mut fd = *self.frame_descriptors.get(frame);
        fd.dirty = dirty;
        if fd.pin_count > 0 {
            fd.pin_count = fd.pin_count - 1;
        }
        *self.frame_descriptors.get_mut(frame) = fd;
        proof {
            assert(self.fds() =~= old(self).fds().update(
                frame.0 as int,
                Self::unpinned(old(self).fds()[frame.0 as int], dirty),
            ));
        }
    }
}

/// Every pin is undone by an unpin: after a pin of `pid` in frame `f` and an
/// unpin of `pid`, the frame is pinned as often as before the pin (never, if
/// the page had to be loaded).
pub proof fn lemma_unpin_undoes_pin<D: DiskManagerTrait, R: ReplacementStrategyTrait>(
    a: &BufferManager<D, R>,
    b: &BufferManager<D, R>,
    c: &BufferManager<D, R>,
    pid: PageID,
    f: FrameID,
    dirty: bool,
)
    requires
        a.wf(),
        BufferManager::pin_meta(a, b, pid, f),
        BufferManager::unpin_meta(b, c, pid, dirty),
    ensures
        c.table() == b.table(),
        c.fds()[f.0 as int].page_id == pid,
        c.fds()[f.0 as int].pin_count == if a.resident(pid) {
            a.fds()[f.0 as int].pin_count
        } else {
            0
        },
        c.fds()[f.0 as int].dirty == dirty,
{
}

/// A pinned page stays in its frame: pinning another page never evicts it.
pub proof fn lemma_pinned_page_stays<D: DiskManagerTrait, R: ReplacementStrategyTrait>(
    a: &BufferManager<D, R>,
    b: &BufferManager<D, R>,
    pid: PageID,
    f: FrameID,
    q: PageID,
)
    requires
        a.wf(),
        BufferManager::pin_meta(a, b, pid, f),
        a.resident(q),
        a.fds()[a.table()[q.0].0 as int].pin_count > 0,
    ensures
        b.resident(q),
        b.table()[q.0] == a.table()[q.0],
{
}

/// What the pool holds for page `q`: its cached copy when it is resident,
/// else its stored copy.
pub open spec fn content<D: DiskManagerTrait, R: ReplacementStrategyTrait>(bm: &BufferManager<D, R>, q: PageID) -> PageView {
    if bm.resident(q) {
        bm.pages()[bm.table()[q.0].0 as int]@
    } else {
        bm.disk().stored(q)
    }
}

/// Every clean cached page equals its stored copy.
pub open spec fn clean_agrees<D: DiskManagerTrait, R: ReplacementStrategyTrait>(bm: &BufferManager<D, R>) -> bool {
    forall|q: PageID|
        #[trigger] bm.resident(q) && !bm.fds()[bm.table()[q.0].0 as int].dirty ==> bm.pages()[bm.table()[
            q.0
        ].0 as int]@ == bm.disk().stored(q)
}

/// A pin changes what the pool holds for no page: an evicted page is
/// written back when dirty, and a clean one already equals its stored copy;
/// the page loaded is its stored copy. Clean cached pages keep equalling
/// their stored copies.
pub proof fn lemma_pin_keeps_content<D: DiskManagerTrait, R: ReplacementStrategyTrait>(
    a: &BufferManager<D, R>,
    b: &BufferManager<D, R>,
    pid: PageID,
    f: FrameID,
)
    requires
        a.wf(),
        clean_agrees(a),
        BufferManager::pin_meta(a, b, pid, f),
        b.pages().len() == a.pages().len(),
        b.pages()[f.0 as int]@ == BufferManager::pinned_page(a, pid, f),
        forall|g: int| 0 <= g < BUFFER_POOL_SIZE && g != f.0 ==> #[trigger] b.pages()[g] == a.pages()[g],
    ensures
        clean_agrees(b),
        forall|q: PageID| #[trigger] content(b, q) == content(a, q),
{
    let t = a.table();
    let fd = a.fds();
    if !a.resident(pid) && a.count() >= BUFFER_POOL_SIZE {
        let v = fd[f.0 as int].page_id;
        assert(t.contains_key(v.0) && t[v.0] == f);
        assert(v.0 != pid.0);
    }
    assert forall|q: PageID| #[trigger] content(b, q) == content(a, q) by {
        if a.resident(q) && q.0 != pid.0 {
            assert(t[q.0].0 < a.count());
            assert(fd[t[q.0].0 as int].page_id.0 == q.0);
        }
    }
    assert forall|q: PageID|
        #[trigger] b.resident(q) && !b.fds()[b.table()[q.0].0 as int].dirty implies b.pages()[b.table()[
            q.0
        ].0 as int]@ == b.disk().stored(q) by {
        if q.0 != pid.0 {
            assert(a.resident(q));
            assert(t[q.0].0 < a.count());
            assert(fd[t[q.0].0 as int].page_id.0 == q.0);
            assert(b.table()[q.0] == t[q.0]);
            assert(t[q.0] != f);
        }
    }
}

/// An unpin changes what the pool holds for no page, and keeps clean
/// cached pages equal to their stored copies when the page is unpinned
/// dirty or equals its stored copy.
pub proof fn lemma_unpin_keeps_content<D: DiskManagerTrait, R: ReplacementStrategyTrait>(
    a: &BufferManager<D, R>,
    b: &BufferManager<D, R>,
    pid: PageID,
    dirty: bool,
)
    requires
        a.wf(),
        a.resident(pid),
        clean_agrees(a),
        BufferManager::unpin_meta(a, b, pid, dirty),
        dirty || a.pages()[a.table()[pid.0].0 as int]@ == a.disk().stored(pid),
    ensures
        clean_agrees(b),
        forall|q: PageID| #[trigger] content(b, q) == content(a, q),
{
    let t = a.table();
    assert forall|q: PageID|
        #[trigger] b.resident(q) && !b.fds()[b.table()[q.0].0 as int].dirty implies b.pages()[b.table()[
            q.0
        ].0 as int]@ == b.disk().stored(q) by {
        assert(b.table() == t);
        assert(b.pages() == a.pages());
        assert(b.disk() == a.disk());
        assert(a.resident(q));
        if q.0 != pid.0 {
            assert(t[q.0].0 < a.count());
            assert(a.fds()[t[q.0].0 as int].page_id.0 == q.0);
            assert(t[q.0].0 != t[pid.0].0);
            assert(b.fds()[t[q.0].0 as int] == a.fds()[t[q.0].0 as int]);
        } else {
            assert(q == pid);
            assert(b.fds()[t[pid.0].0 as int].dirty == dirty);
        }
    }
}

} // verus!
