//! Row-level lock table with shared and exclusive locks, FIFO wait queues and
//! in-place read-to-write upgrades.

use std::collections::HashMap;
use std::collections::HashSet;
use std::collections::VecDeque;

use vstd::prelude::*;

use super::{BasicLockResult, LockRequest, LockingError, TID};
use crate::distributed::RowID;

verus! {

broadcast use vstd::std_specs::hash::group_hash_axioms;

/// Lock state of one row: the readers, the writer and the waiting requests.
pub struct BasicLockState {
    pub readers: HashSet<TID>,
    pub writer: Option<TID>,
    pub queue: VecDeque<(TID, LockRequest)>,
}

/// Mathematical view of [`BasicLockState`].
pub struct LockStateView {
    pub readers: Set<TID>,
    pub writer: Option<TID>,
    pub queue: Seq<(TID, LockRequest)>,
}

impl View for BasicLockState {
    type V = LockStateView;

    open spec fn view(&self) -> LockStateView {
        LockStateView { readers: self.readers@, writer: self.writer, queue: self.queue@ }
    }
}

/// The state of a row that nobody has locked.
pub open spec fn empty_lock_state() -> LockStateView {
    LockStateView { readers: Set::empty(), writer: None, queue: Seq::empty() }
}

/// Whether `tid` holds a lock (shared or exclusive) in `s`.
pub open spec fn holds_lock(s: LockStateView, tid: TID) -> bool {
    s.readers.contains(tid) || s.writer == Some(tid)
}

/// Whether `req` of `tid` goes with the current holders of `s`, its queue
/// left aside: a read goes when there is no writer; a write when there is no
/// other holder, which upgrades a sole reader in place. Asking again for a
/// lock that is held (or implied by the held one) is an error.
pub open spec fn compatible_decision(s: LockStateView, tid: TID, req: LockRequest) -> Result<
    BasicLockResult,
    LockingError,
> {
    match req {
        LockRequest::Read => {
            if holds_lock(s, tid) {
                Err(LockingError::LockAlreadyHeld)
            } else if s.writer is None {
                Ok(BasicLockResult::Granted)
            } else {
                Ok(BasicLockResult::Queued)
            }
        },
        LockRequest::Write => {
            if s.writer is Some {
                if s.writer == Some(tid) {
                    Err(LockingError::LockAlreadyHeld)
                } else {
                    Ok(BasicLockResult::Queued)
                }
            } else if s.readers.len() > 1 {
                Ok(BasicLockResult::Queued)
            } else if s.readers.len() == 1 {
                if s.readers.contains(tid) {
                    Ok(BasicLockResult::Granted)
                } else {
                    Ok(BasicLockResult::Queued)
                }
            } else {
                Ok(BasicLockResult::Granted)
            }
        },
    }
}

/// The answer to a request of `tid` for `req` on a row in state `s`.
///
/// As [`compatible_decision`], except that a read is queued behind any
/// waiting request: the queue is strictly first in, first out, so a waiting
/// writer holds up later readers.
pub open spec fn lock_decision(s: LockStateView, tid: TID, req: LockRequest) -> Result<
    BasicLockResult,
    LockingError,
> {
    if req == LockRequest::Read && s.queue.len() > 0 && compatible_decision(s, tid, req) == Ok::<
        BasicLockResult,
        LockingError,
    >(BasicLockResult::Granted) {
        Ok(BasicLockResult::Queued)
    } else {
        compatible_decision(s, tid, req)
    }
}

/// The state after `tid` was granted `req` in `s` (the queue is kept).
pub open spec fn granted_state(s: LockStateView, tid: TID, req: LockRequest) -> LockStateView {
    match req {
        LockRequest::Read => LockStateView { readers: s.readers.insert(tid), ..s },
        LockRequest::Write => LockStateView { readers: Set::empty(), writer: Some(tid), ..s },
    }
}

/// The state of a row after a request of `tid` for `req`.
pub open spec fn state_after_lock(s: LockStateView, tid: TID, req: LockRequest) -> LockStateView {
    match lock_decision(s, tid, req) {
        Ok(BasicLockResult::Granted) => granted_state(s, tid, req),
        Ok(BasicLockResult::Queued) => LockStateView { queue: s.queue.push((tid, req)), ..s },
        Err(_) => s,
    }
}

/// The state of row `obj` in the table `m`; a row without entry is unlocked.
pub open spec fn state_of(m: Map<usize, LockStateView>, obj: usize) -> LockStateView {
    if m.contains_key(obj) {
        m[obj]
    } else {
        empty_lock_state()
    }
}

/// `s` without the lock of `tid`.
pub open spec fn drop_holder(s: LockStateView, tid: TID) -> LockStateView {
    LockStateView {
        readers: s.readers.remove(tid),
        writer: if s.writer == Some(tid) {
            None
        } else {
            s.writer
        },
        queue: s.queue,
    }
}

/// Grants the head of the queue for as long as it can be granted, appending
/// every granted request to `granted`.
pub open spec fn grant_waiting(s: LockStateView, granted: Seq<(TID, LockRequest)>) -> (
    LockStateView,
    Seq<(TID, LockRequest)>,
)
    decreases s.queue.len(),
{
    if s.queue.len() == 0 {
        (s, granted)
    } else {
        let (id, req) = s.queue[0];
        if compatible_decision(s, id, req) == Ok::<BasicLockResult, LockingError>(
            BasicLockResult::Granted,
        ) {
            grant_waiting(
                LockStateView { queue: s.queue.drop_first(), ..granted_state(s, id, req) },
                granted.push((id, req)),
            )
        } else {
            (s, granted)
        }
    }
}

/// Two grants of one transaction (a read, then the upgrade) are reported once.
pub open spec fn merge_upgrade(v: Seq<(TID, LockRequest)>) -> Seq<(TID, LockRequest)> {
    if v.len() == 2 && v[0].0 == v[1].0 {
        v.drop_first()
    } else {
        v
    }
}

/// Whether `release` of `tid` on `obj` fails.
pub open spec fn release_fails(m: Map<usize, LockStateView>, tid: TID, obj: usize) -> bool {
    !m.contains_key(obj) || !holds_lock(m[obj], tid)
}

/// The requests granted by a release of `tid` on `obj`.
pub open spec fn release_granted(m: Map<usize, LockStateView>, tid: TID, obj: usize) -> Seq<
    (TID, LockRequest),
> {
    merge_upgrade(grant_waiting(drop_holder(m[obj], tid), Seq::empty()).1)
}

/// The table after a successful release of `tid` on `obj`.
pub open spec fn table_after_release(m: Map<usize, LockStateView>, tid: TID, obj: usize) -> Map<
    usize,
    LockStateView,
> {
    m.insert(obj, grant_waiting(drop_holder(m[obj], tid), Seq::empty()).0)
}

/// No row has a writer together with readers.
pub open spec fn exclusive_writer(s: LockStateView) -> bool {
    s.writer is Some ==> s.readers.is_empty()
}

impl BasicLockState {
    fn new() -> (s: Self)
        ensures
            s@ == empty_lock_state(),
    {
        BasicLockState { readers: HashSet::new(), writer: None, queue: VecDeque::new() }
    }

    /// Grants `req` of `tid` when it goes with the current holders, the
    /// queue left aside; `false`, with nothing changed, otherwise.
    fn try_grant(&mut self, tid: TID, req: LockRequest) -> (b: bool)
        ensures
            b == (compatible_decision(old(self)@, tid, req) == Ok::<BasicLockResult, LockingError>(
                BasicLockResult::Granted,
            )),
            final(self)@ == if b {
                granted_state(old(self)@, tid, req)
            } else {
                old(self)@
            },
    {
        let held_by_writer = match self.writer {
            Some(w) => w == tid,
            None => false,
        };
        match req {
            LockRequest::Read => {
                if self.readers.contains(&tid) || held_by_writer || self.writer.is_some() {
                    return false;
                }
                self.readers.insert(tid);
                true
            },
            LockRequest::Write => {
                if self.writer.is_some() || self.readers.len() > 1 {
                    return false;
                }
                if self.readers.len() == 1 && !self.readers.contains(&tid) {
                    return false;
                }
                self.readers.clear();
                self.writer = Some(tid);
                true
            },
        }
    }

    /// Applies one request to this row's state.
    fn apply(&mut self, tid: TID, req: LockRequest) -> (r: Result<BasicLockResult, LockingError>)
        ensures
            r == lock_decision(old(self)@, tid, req),
            final(self)@ == state_after_lock(old(self)@, tid, req),
    {
        match req {
            LockRequest::Read => {
                let held_by_writer = match self.writer {
                    Some(w) => w == tid,
                    None => false,
                };
                if self.readers.contains(&tid) || held_by_writer {
                    return Err(LockingError::LockAlreadyHeld);
                }
                if self.writer.is_none() && self.queue.len() == 0 {
                    self.readers.insert(tid);
                    Ok(BasicLockResult::Granted)
                } else {
                    self.queue.push_back((tid, req));
                    Ok(BasicLockResult::Queued)
                }
            },
            LockRequest::Write => {
                if let Some(w) = self.writer {
                    return if w == tid {
                        Err(LockingError::LockAlreadyHeld)
                    } else {
                        self.queue.push_back((tid, req));
                        Ok(BasicLockResult::Queued)
                    };
                }
                if self.readers.len() > 1 {
                    self.queue.push_back((tid, req));
                    Ok(BasicLockResult::Queued)
                } else if self.readers.len() == 1 {
                    if self.readers.contains(&tid) {
                        self.readers.clear();
                        self.writer = Some(tid);
                        Ok(BasicLockResult::Granted)
                    } else {
                        self.queue.push_back((tid, req));
                        Ok(BasicLockResult::Queued)
                    }
                } else {
                    // no reader is left: the set is already empty
                    self.readers.clear();
                    self.writer = Some(tid);
                    Ok(BasicLockResult::Granted)
                }
            },
        }
    }
}

/// The underlying lock table: the lock state of every row that was ever locked.
pub struct BasicLockTable {
    hash_map: HashMap<usize, BasicLockState>,
}

impl View for BasicLockTable {
    type V = Map<usize, LockStateView>;

    closed spec fn view(&self) -> Map<usize, LockStateView> {
        self.hash_map@.map_values(|s: BasicLockState| s@)
    }
}

fn check_and_merge(vec: &mut Vec<(TID, LockRequest)>)
    ensures
        final(vec)@ == merge_upgrade(old(vec)@),
{
    if vec.len() == 2 && vec[0].0 == vec[1].0 {
        vec.remove(0);
        proof {
            assert(vec@ =~= merge_upgrade(old(vec)@));
        }
    }
}

impl BasicLockTable {
    /// Constructs an empty lock table.
    pub fn new() -> (t: Self)
        ensures
            t@ == Map::<usize, LockStateView>::empty(),
    {
        let t = Self { hash_map: HashMap::new() };
        proof {
            assert(t@ =~= Map::<usize, LockStateView>::empty());
        }
        t
    }

    /// The lock state of `object`, if it was ever locked.
    pub fn get_state(&self, object: RowID) -> (r: Option<&BasicLockState>)
        ensures
            match r {
                Some(s) => self@.contains_key(object.0) && s@ == self@[object.0],
                None => !self@.contains_key(object.0),
            },
    {
        self.hash_map.get(&object.0)
    }

    /// Requests lock `req` on `object` for transaction `tid`.
    ///
    /// Grants it when compatible with the current holders (a read only while
    /// nobody waits), queues it at the back of the row's queue otherwise, and
    /// refuses it with
    /// `LockAlreadyHeld` when `tid` already holds it (or a stronger lock).
    pub fn lock(&mut self, tid: TID, object: RowID, req: LockRequest) -> (r: Result<
        BasicLockResult,
        LockingError,
    >)
        ensures
            r == lock_decision(state_of(old(self)@, object.0, ), tid, req),
            final(self)@ == old(self)@.insert(
                object.0,
                state_after_lock(state_of(old(self)@, object.0), tid, req),
            ),
    {
        let mut st = match self.hash_map.remove(&object.0) {
            Some(s) => s,
            None => BasicLockState::new(),
        };
        let r = st.apply(tid, req);
        self.hash_map.insert(object.0, st);
        proof {
            assert(self@ =~= old(self)@.insert(
                object.0,
                state_after_lock(state_of(old(self)@, object.0), tid, req),
            ));
        }
        r
    }

    /// Releases the lock of `tid` on `object`, then grants waiting requests from
    /// the head of the queue until the first one that still conflicts.
    ///
    /// Returns the granted requests in queue order, a read followed by the
    /// upgrade of the same transaction being reported once.
    pub fn release(&mut self, tid: TID, object: RowID) -> (r: Result<
        Vec<(TID, LockRequest)>,
        LockingError,
    >)
        ensures
            release_fails(old(self)@, tid, object.0) ==> r == Err::<
                Vec<(TID, LockRequest)>,
                LockingError,
            >(LockingError::LockNotHeld) && final(self)@ == old(self)@,
            !release_fails(old(self)@, tid, object.0) ==> r is Ok && r->Ok_0@ == release_granted(
                old(self)@,
                tid,
                object.0,
            ) && final(self)@ == table_after_release(old(self)@, tid, object.0),
    {
        let obj = object.0;
        let mut st = match self.hash_map.remove(&obj) {
            Some(s) => s,
            None => {
                proof {
                    assert(self@ =~= old(self)@);
                }
                return Err(LockingError::LockNotHeld);
            },
        };
        let held_by_writer = match st.writer {
            Some(w) => w == tid,
            None => false,
        };
        if !st.readers.contains(&tid) && !held_by_writer {
            self.hash_map.insert(obj, st);
            proof {
                assert(self@ =~= old(self)@);
            }
            return Err(LockingError::LockNotHeld);
        }
        if st.readers.contains(&tid) {
            st.readers.remove(&tid);
        }
        if held_by_writer {
            st.writer = None;
        }
        proof {
            assert(st@.readers =~= old(self)@[obj].readers.remove(tid));
            assert(st@ == drop_holder(old(self)@[obj], tid));
        }
        self.hash_map.insert(obj, st);
        let ghost target = grant_waiting(drop_holder(old(self)@[obj], tid), Seq::empty());
        let ghost rest = old(self)@.remove(obj);
        let mut vec: Vec<(TID, LockRequest)> = Vec::new();
        loop
            invariant
                self@.contains_key(obj),
                rest == old(self)@.remove(obj),
                obj == object.0,
                !release_fails(old(self)@, tid, obj),
                target == grant_waiting(drop_holder(old(self)@[obj], tid), Seq::empty()),
                self@.remove(obj) == rest,
                grant_waiting(self@[obj], vec@) == target,
            decreases self@[obj].queue.len(),
        {
            let st = self.hash_map.get(&obj).unwrap();
            if st.queue.len() == 0 {
                check_and_merge(&mut vec);
                proof {
                    assert(self@ =~= rest.insert(obj, target.0));
                    assert(old(self)@.insert(obj, target.0) =~= rest.insert(obj, target.0));
                }
                return Ok(vec);
            }
            let (id, req) = st.queue[0];
            let ghost before = self@[obj];
            proof {
                assert(before.queue[0] == (id, req));
            }
            let ghost prev = self@;
            let granted = self.grant_head(obj, id, req);
            proof {
                assert(self@.remove(obj) =~= prev.remove(obj));
            }
            if granted {
                vec.push((id, req));
                self.pop_queue(obj, true);
                proof {
                    assert(self@[obj].queue =~= before.queue.drop_first());
                    assert(self@.remove(obj) =~= rest);
                }
            } else {
                proof {
                    assert(self@[obj] == before);
                    assert(grant_waiting(before, vec@) == (before, vec@));
                    assert(self@ =~= rest.insert(obj, target.0));
                    assert(old(self)@.insert(obj, target.0) =~= rest.insert(obj, target.0));
                }
                check_and_merge(&mut vec);
                return Ok(vec);
            }
        }
    }

    /// Grants `req` of `tid` on `obj` when it goes with the current holders
    /// of the row, its queue left aside; `false`, with nothing changed,
    /// otherwise.
    fn grant_head(&mut self, obj: usize, tid: TID, req: LockRequest) -> (b: bool)
        requires
            old(self)@.contains_key(obj),
        ensures
            b == (compatible_decision(old(self)@[obj], tid, req) == Ok::<BasicLockResult, LockingError>(
                BasicLockResult::Granted,
            )),
            final(self)@ == old(self)@.insert(
                obj,
                if b {
                    granted_state(old(self)@[obj], tid, req)
                } else {
                    old(self)@[obj]
                },
            ),
    {
        proof {
            assert(self.hash_map@.dom() =~= self@.dom());
            assert(self.hash_map@[obj]@ == self@[obj]);
        }
        let mut st = self.hash_map.remove(&obj).unwrap();
        assert(st@ == old(self)@[obj]);
        let b = st.try_grant(tid, req);
        let ghost after = st@;
        self.hash_map.insert(obj, st);
        proof {
            assert(self.hash_map@[obj]@ == after);
            assert(self@ =~= old(self)@.insert(obj, after));
        }
        b
    }

    /// Drops the first (`front`) or the last request of the queue of `obj`.
    fn pop_queue(&mut self, obj: usize, front: bool)
        requires
            old(self)@.contains_key(obj),
            old(self)@[obj].queue.len() > 0,
        ensures
            final(self)@ == old(self)@.insert(
                obj,
                LockStateView {
                    queue: if front {
                        old(self)@[obj].queue.drop_first()
                    } else {
                        old(self)@[obj].queue.drop_last()
                    },
                    ..old(self)@[obj]
                },
            ),
    {
        proof {
            assert(self.hash_map@.dom() =~= self@.dom());
            assert(self.hash_map@[obj]@ == self@[obj]);
        }
        let mut st = self.hash_map.remove(&obj).unwrap();
        assert(st@ == old(self)@[obj]);
        if front {
            st.queue.pop_front();
        } else {
            st.queue.pop_back();
        }
        let ghost popped = st@;
        self.hash_map.insert(obj, st);
        proof {
            assert(self.hash_map@[obj]@ == self@[obj]);
            let want = LockStateView {
                queue: if front {
                    old(self)@[obj].queue.drop_first()
                } else {
                    old(self)@[obj].queue.drop_last()
                },
                ..old(self)@[obj]
            };
            assert(self@[obj].queue =~= want.queue);
            assert(self@ =~= old(self)@.insert(obj, want));
        }
    }
}

/// A granted lock is held afterwards.
pub proof fn lemma_granted_lock_is_held(s: LockStateView, tid: TID, req: LockRequest)
    requires
        lock_decision(s, tid, req) == Ok::<BasicLockResult, LockingError>(
            BasicLockResult::Granted,
        ),
    ensures
        holds_lock(state_after_lock(s, tid, req), tid),
        req == LockRequest::Write ==> state_after_lock(s, tid, req).writer == Some(tid),
{
}

/// Asking again for a lock that is held is refused, and changes nothing.
pub proof fn lemma_rerequest_refused(s: LockStateView, tid: TID, req: LockRequest)
    requires
        req == LockRequest::Read ==> holds_lock(s, tid),
        req == LockRequest::Write ==> s.writer == Some(tid),
    ensures
        lock_decision(s, tid, req) == Err::<BasicLockResult, LockingError>(
            LockingError::LockAlreadyHeld,
        ),
        state_after_lock(s, tid, req) == s,
{
}

/// A request never overtakes: a lock request is granted or queued at the back.
pub proof fn lemma_lock_queues_at_back(s: LockStateView, tid: TID, req: LockRequest)
    ensures
        lock_decision(s, tid, req) == Ok::<BasicLockResult, LockingError>(
            BasicLockResult::Queued,
        ) ==> state_after_lock(s, tid, req).queue == s.queue.push((tid, req)),
        lock_decision(s, tid, req) != Ok::<BasicLockResult, LockingError>(
            BasicLockResult::Queued,
        ) ==> state_after_lock(s, tid, req).queue == s.queue,
{
}

proof fn lemma_granted_keeps_exclusive(s: LockStateView, tid: TID, req: LockRequest)
    requires
        exclusive_writer(s),
        compatible_decision(s, tid, req) == Ok::<BasicLockResult, LockingError>(
            BasicLockResult::Granted,
        ),
    ensures
        exclusive_writer(granted_state(s, tid, req)),
{
}

proof fn lemma_grant_waiting_keeps_exclusive(s: LockStateView, granted: Seq<(TID, LockRequest)>)
    requires
        exclusive_writer(s),
    ensures
        exclusive_writer(grant_waiting(s, granted).0),
    decreases s.queue.len(),
{
    if s.queue.len() > 0 {
        let (id, req) = s.queue[0];
        if compatible_decision(s, id, req) == Ok::<BasicLockResult, LockingError>(
            BasicLockResult::Granted,
        ) {
            lemma_granted_keeps_exclusive(s, id, req);
            lemma_grant_waiting_keeps_exclusive(
                LockStateView { queue: s.queue.drop_first(), ..granted_state(s, id, req) },
                granted.push((id, req)),
            );
        }
    }
}

/// Every lock request keeps the rule that a writer excludes all readers.
pub proof fn lemma_lock_keeps_exclusive(
    m: Map<usize, LockStateView>,
    tid: TID,
    obj: usize,
    req: LockRequest,
)
    requires
        forall|o: usize| #[trigger] m.contains_key(o) ==> exclusive_writer(m[o]),
    ensures
        forall|o: usize|
            #[trigger] m.insert(obj, state_after_lock(state_of(m, obj), tid, req)).contains_key(o)
                ==> exclusive_writer(
                m.insert(obj, state_after_lock(state_of(m, obj), tid, req))[o],
            ),
{
    let s = state_of(m, obj);
    if lock_decision(s, tid, req) == Ok::<BasicLockResult, LockingError>(
        BasicLockResult::Granted,
    ) {
        lemma_granted_keeps_exclusive(s, tid, req);
    }
}

/// Every release keeps the rule that a writer excludes all readers.
pub proof fn lemma_release_keeps_exclusive(m: Map<usize, LockStateView>, tid: TID, obj: usize)
    requires
        forall|o: usize| #[trigger] m.contains_key(o) ==> exclusive_writer(m[o]),
        !release_fails(m, tid, obj),
    ensures
        forall|o: usize| #[trigger]
            table_after_release(m, tid, obj).contains_key(o) ==> exclusive_writer(
                table_after_release(m, tid, obj)[o],
            ),
{
    lemma_grant_waiting_keeps_exclusive(drop_holder(m[obj], tid), Seq::empty());
}

proof fn lemma_grant_waiting_not_holding(
    s: LockStateView,
    granted: Seq<(TID, LockRequest)>,
    tid: TID,
)
    requires
        !holds_lock(s, tid),
    ensures
        grant_waiting(s, granted).1.len() >= granted.len(),
        grant_waiting(s, granted).1.subrange(0, granted.len() as int) == granted,
        (forall|i: int|
            granted.len() <= i < grant_waiting(s, granted).1.len() ==> (#[trigger] grant_waiting(
                s,
                granted,
            ).1[i]).0 != tid) ==> !holds_lock(grant_waiting(s, granted).0, tid),
    decreases s.queue.len(),
{
    if s.queue.len() > 0 {
        let (id, req) = s.queue[0];
        if compatible_decision(s, id, req) == Ok::<BasicLockResult, LockingError>(
            BasicLockResult::Granted,
        ) {
            let s2 = LockStateView { queue: s.queue.drop_first(), ..granted_state(s, id, req) };
            let g2 = granted.push((id, req));
            let fin = grant_waiting(s2, g2).1;
            if id != tid {
                lemma_grant_waiting_not_holding(s2, g2, tid);
                assert(fin.subrange(0, granted.len() as int) =~= granted) by {
                    assert(fin.subrange(0, g2.len() as int) == g2);
                    assert forall|i: int| 0 <= i < granted.len() implies fin[i] == granted[i] by {
                        assert(fin.subrange(0, g2.len() as int)[i] == g2[i]);
                    }
                }
            } else {
                lemma_grant_waiting_prefix(s2, g2);
                assert(fin.subrange(0, g2.len() as int)[granted.len() as int] == g2[granted.len() as int]);
                assert(fin[granted.len() as int].0 == tid);
                assert(fin.subrange(0, granted.len() as int) =~= granted) by {
                    assert forall|i: int| 0 <= i < granted.len() implies fin[i] == granted[i] by {
                        assert(fin.subrange(0, g2.len() as int)[i] == g2[i]);
                    }
                }
            }
        }
    }
}

proof fn lemma_grant_waiting_prefix(s: LockStateView, granted: Seq<(TID, LockRequest)>)
    ensures
        grant_waiting(s, granted).1.len() >= granted.len(),
        grant_waiting(s, granted).1.subrange(0, granted.len() as int) == granted,
    decreases s.queue.len(),
{
    if s.queue.len() > 0 {
        let (id, req) = s.queue[0];
        if compatible_decision(s, id, req) == Ok::<BasicLockResult, LockingError>(
            BasicLockResult::Granted,
        ) {
            let s2 = LockStateView { queue: s.queue.drop_first(), ..granted_state(s, id, req) };
            let g2 = granted.push((id, req));
            lemma_grant_waiting_prefix(s2, g2);
            let fin = grant_waiting(s2, g2).1;
            assert(fin.subrange(0, granted.len() as int) =~= granted) by {
                assert forall|i: int| 0 <= i < granted.len() implies fin[i] == granted[i] by {
                    assert(fin.subrange(0, g2.len() as int)[i] == g2[i]);
                }
            }
        } else {
            assert(granted.subrange(0, granted.len() as int) =~= granted);
        }
    } else {
        assert(granted.subrange(0, granted.len() as int) =~= granted);
    }
}

/// After a successful release, `tid` no longer holds a lock on the row, unless
/// one of the requests granted by the release is its own.
pub proof fn lemma_release_drops_lock(m: Map<usize, LockStateView>, tid: TID, obj: usize)
    requires
        !release_fails(m, tid, obj),
        forall|i: int|
            0 <= i < release_granted(m, tid, obj).len() ==> (#[trigger] release_granted(
                m,
                tid,
                obj,
            )[i]).0 != tid,
    ensures
        !holds_lock(table_after_release(m, tid, obj)[obj], tid),
{
    let s = drop_holder(m[obj], tid);
    lemma_grant_waiting_not_holding(s, Seq::empty(), tid);
    let g = grant_waiting(s, Seq::empty()).1;
    assert forall|i: int| 0 <= i < g.len() implies (#[trigger] g[i]).0 != tid by {
        if g.len() == 2 && g[0].0 == g[1].0 {
            if i == 0 {
                assert(release_granted(m, tid, obj)[0] == g[1]);
            } else {
                assert(release_granted(m, tid, obj)[0] == g[1]);
            }
        } else {
            assert(release_granted(m, tid, obj)[i] == g[i]);
        }
    }
}

} // verus!
