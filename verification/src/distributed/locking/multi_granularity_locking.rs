//! Multi-granularity locking over a named resource tree: intention locks on
//! the ancestors of a node and a shared or exclusive lock on the node itself,
//! acquired all-or-nothing along a path.

use vstd::prelude::*;

use super::{LockRequest, LockingError, TID};

verus! {

/// Lock modes of the multi-granularity protocol; `Denied` reports a refusal.
#[derive(Clone, Copy, Debug, PartialEq, Eq, Hash, Structural)]
pub enum MGLLock {
    IntentionRead,
    IntentionWrite,
    Read,
    Write,
    Denied,
}

/// A node of the resource tree: the locks held on it and its named children.
///
/// [`MultiGranularityLockTree::lock`] adds a `(transaction, mode)` pair to
/// `locks` only when the pair is not there already.
pub struct MGLNode {
    pub locks: Vec<(TID, MGLLock)>,
    pub children: Vec<(String, MGLNode)>,
}

/// Mathematical view of a resource tree.
pub struct MGLView {
    pub locks: Seq<(TID, MGLLock)>,
    pub children: Seq<(Seq<char>, MGLView)>,
}

impl MGLNode {
    /// The tree rooted at this node.
    pub open spec fn tree(&self) -> MGLView
        decreases *self,
    {
        MGLView { locks: self.locks@, children: children_tree(self.children@) }
    }
}

/// The views of a list of named children.
pub open spec fn children_tree(s: Seq<(String, MGLNode)>) -> Seq<(Seq<char>, MGLView)>
    decreases s,
{
    if s.len() == 0 {
        Seq::empty()
    } else {
        seq![(s[0].0@, s[0].1.tree())] + children_tree(s.drop_first())
    }
}

/// The mode that `req` puts on the ancestors of the target node.
pub open spec fn intention_of(req: LockRequest) -> MGLLock {
    match req {
        LockRequest::Read => MGLLock::IntentionRead,
        LockRequest::Write => MGLLock::IntentionWrite,
    }
}

/// The mode that `req` puts on the target node.
pub open spec fn target_mode_of(req: LockRequest) -> MGLLock {
    match req {
        LockRequest::Read => MGLLock::Read,
        LockRequest::Write => MGLLock::Write,
    }
}

/// Whether a node holding `locks` admits `req`, as an intention lock
/// (`intention`) or on the target node.
///
/// An unlocked node admits everything and a node with a single exclusive lock
/// nothing; an exclusive target lock is only granted on an unlocked node; `IS`
/// is always compatible; `S` conflicts with `IX` and `IX` with `S`.
pub open spec fn can_grant_spec(req: LockRequest, locks: Seq<(TID, MGLLock)>, intention: bool) -> bool {
    if locks.len() == 0 {
        true
    } else if locks.len() == 1 && locks[0].1 == MGLLock::Write {
        false
    } else if req == LockRequest::Write && !intention {
        false
    } else if req == LockRequest::Read && intention {
        true
    } else if req == LockRequest::Read {
        !(exists|i: int| 0 <= i < locks.len() && #[trigger] locks[i].1 == MGLLock::IntentionWrite)
    } else {
        !(exists|i: int| 0 <= i < locks.len() && #[trigger] locks[i].1 == MGLLock::Read)
    }
}

/// The compatibility matrix of the protocol: whether a lock in mode `wanted`
/// can stand beside one in mode `held` on the same node. `IS` fits with
/// everything but `X`, `IX` with the intention modes, `S` with `IS` and `S`,
/// and `X` with nothing.
pub open spec fn modes_compatible(held: MGLLock, wanted: MGLLock) -> bool {
    match wanted {
        MGLLock::IntentionRead => held != MGLLock::Write,
        MGLLock::IntentionWrite => held == MGLLock::IntentionRead || held == MGLLock::IntentionWrite,
        MGLLock::Read => held == MGLLock::IntentionRead || held == MGLLock::Read,
        _ => false,
    }
}

/// The mode that a request asks for on a node: its intention mode on an
/// ancestor of the target, its own mode on the target.
pub open spec fn requested_mode(req: LockRequest, intention: bool) -> MGLLock {
    if intention {
        intention_of(req)
    } else {
        target_mode_of(req)
    }
}

/// The lock lists that granting produces: no `Denied` entry, and an
/// exclusive lock only as the single lock of its node.
pub open spec fn held_locks(locks: Seq<(TID, MGLLock)>) -> bool {
    forall|i: int|
        0 <= i < locks.len() ==> (#[trigger] locks[i]).1 != MGLLock::Denied && (locks[i].1
            == MGLLock::Write ==> locks.len() == 1)
}

/// On a node whose locks are as granting leaves them, a request is granted
/// exactly when the mode it asks for is compatible with every lock held
/// there.
pub proof fn lemma_can_grant_compatible(req: LockRequest, locks: Seq<(TID, MGLLock)>, intention: bool)
    requires
        held_locks(locks),
    ensures
        can_grant_spec(req, locks, intention) <==> forall|i: int|
            0 <= i < locks.len() ==> modes_compatible(
                #[trigger] locks[i].1,
                requested_mode(req, intention),
            ),
{
    if locks.len() > 0 && !(locks.len() == 1 && locks[0].1 == MGLLock::Write) {
        assert forall|i: int| 0 <= i < locks.len() implies #[trigger] locks[i].1 != MGLLock::Write by {
            if locks[i].1 == MGLLock::Write {
                assert(locks.len() == 1);
            }
        }
    }
    if locks.len() > 0 && req == LockRequest::Write && !intention {
        assert(!modes_compatible(locks[0].1, requested_mode(req, intention)));
    }
}

/// Conflicts that refuse a request on any node: an intention-write lock is
/// never granted where some transaction holds a shared lock, a shared lock
/// never where one holds an intention-write lock, an exclusive lock never on
/// a locked node, and a node whose only lock is exclusive refuses every
/// request.
pub proof fn lemma_can_grant_conflicts(req: LockRequest, locks: Seq<(TID, MGLLock)>, intention: bool, i: int)
    requires
        0 <= i < locks.len(),
    ensures
        locks[i].1 == MGLLock::Read ==> !can_grant_spec(LockRequest::Write, locks, true),
        locks[i].1 == MGLLock::IntentionWrite ==> !can_grant_spec(LockRequest::Read, locks, false),
        !can_grant_spec(LockRequest::Write, locks, false),
        locks.len() == 1 && locks[0].1 == MGLLock::Write ==> !can_grant_spec(req, locks, intention),
{
}

/// Index of the first child called `name`, or -1.
pub open spec fn child_pos(children: Seq<(Seq<char>, MGLView)>, name: Seq<char>) -> int
    decreases children.len(),
{
    if children.len() == 0 {
        -1
    } else if children[0].0 == name {
        0
    } else {
        let p = child_pos(children.drop_first(), name);
        if p < 0 {
            -1
        } else {
            p + 1
        }
    }
}

/// Whether every name of `path` leads to an existing child, from `t` down.
pub open spec fn path_exists(t: MGLView, path: Seq<Seq<char>>) -> bool
    decreases path.len(),
{
    path.len() == 0 || {
        let i = child_pos(t.children, path[0]);
        i >= 0 && path_exists(t.children[i].1, path.drop_first())
    }
}

/// The node that `path` leads to from `t`.
pub open spec fn node_at(t: MGLView, path: Seq<Seq<char>>) -> MGLView
    decreases path.len(),
{
    if path.len() == 0 {
        t
    } else {
        let i = child_pos(t.children, path[0]);
        node_at(t.children[i].1, path.drop_first())
    }
}

/// The modes decided for a request along `rest`, below the node `t` that was
/// reached last: intention modes on the way, the target mode on the last
/// node, and `Denied` at the first node that refuses.
pub open spec fn lock_modes(t: MGLView, rest: Seq<Seq<char>>, req: LockRequest) -> Seq<MGLLock>
    decreases rest.len(),
{
    if rest.len() == 0 {
        if can_grant_spec(req, t.locks, false) {
            seq![target_mode_of(req)]
        } else {
            seq![MGLLock::Denied]
        }
    } else {
        let child = t.children[child_pos(t.children, rest[0])].1;
        if rest.len() == 1 {
            lock_modes(child, Seq::empty(), req)
        } else if can_grant_spec(req, child.locks, true) {
            seq![intention_of(req)] + lock_modes(child, rest.drop_first(), req)
        } else {
            seq![MGLLock::Denied]
        }
    }
}

proof fn lemma_lock_modes_len(t: MGLView, path: Seq<Seq<char>>, req: LockRequest)
    requires
        path.len() > 0,
    ensures
        0 < lock_modes(t, path, req).len() <= path.len(),
    decreases path.len(),
{
    let child = t.children[child_pos(t.children, path[0])].1;
    if path.len() == 1 {
        assert(lock_modes(child, Seq::empty(), req).len() == 1);
    } else if can_grant_spec(req, child.locks, true) {
        lemma_lock_modes_len(child, path.drop_first(), req);
    }
}

/// Every mode that a request is granted along a path is the mode it asks
/// for there (its intention mode above the target, its own mode on the
/// target) and is compatible with every lock already held on that node,
/// wherever the locks there are as granting leaves them. In particular no
/// intention-write lock is granted beside a shared lock, and no shared lock
/// beside an intention-write lock.
pub proof fn lemma_granted_modes_compatible(t: MGLView, path: Seq<Seq<char>>, req: LockRequest, k: int)
    requires
        path.len() > 0,
        0 <= k < lock_modes(t, path, req).len(),
        lock_modes(t, path, req)[k] != MGLLock::Denied,
        held_locks(node_at(t, path.take(k + 1)).locks),
    ensures
        k < path.len(),
        lock_modes(t, path, req)[k] == requested_mode(req, k < path.len() - 1),
        forall|i: int|
            0 <= i < node_at(t, path.take(k + 1)).locks.len() ==> modes_compatible(
                #[trigger] node_at(t, path.take(k + 1)).locks[i].1,
                lock_modes(t, path, req)[k],
            ),
    decreases path.len(),
{
    let child = t.children[child_pos(t.children, path[0])].1;
    let tail = path.drop_first();
    lemma_lock_modes_len(t, path, req);
    assert(path.take(1)[0] == path[0]);
    assert(path.take(1).drop_first() =~= Seq::<Seq<char>>::empty());
    assert(node_at(child, Seq::<Seq<char>>::empty()) == child);
    assert(node_at(t, path.take(1)) == child);
    if path.len() == 1 {
        assert(lock_modes(t, path, req) == lock_modes(child, Seq::empty(), req));
        if can_grant_spec(req, child.locks, false) {
            assert(lock_modes(child, Seq::empty(), req) == seq![target_mode_of(req)]);
        } else {
            assert(lock_modes(child, Seq::empty(), req) == seq![MGLLock::Denied]);
        }
        lemma_can_grant_compatible(req, child.locks, false);
    } else {
        if can_grant_spec(req, child.locks, true) {
            assert(lock_modes(t, path, req) == seq![intention_of(req)] + lock_modes(child, tail, req));
            if k == 0 {
                lemma_can_grant_compatible(req, child.locks, true);
            } else {
                assert(path.take(k + 1)[0] == path[0]);
                assert(path.take(k + 1).drop_first() =~= tail.take(k));
                assert(node_at(t, path.take(k + 1)) == node_at(child, tail.take(k)));
                assert(tail.take(k - 1 + 1) == tail.take(k));
                lemma_granted_modes_compatible(child, tail, req, k - 1);
                assert(lock_modes(t, path, req)[k] == lock_modes(child, tail, req)[k - 1]);
            }
        } else {
            assert(lock_modes(t, path, req) == seq![MGLLock::Denied]);
        }
    }
}

/// Along a path of unlocked nodes every request is granted: intention modes
/// on the way and the requested mode on the target.
pub proof fn lemma_unlocked_path_granted(t: MGLView, path: Seq<Seq<char>>, req: LockRequest)
    requires
        path.len() > 0,
        forall|k: int| 0 <= k < path.len() ==> (#[trigger] node_at(t, path.take(k + 1))).locks.len() == 0,
    ensures
        lock_modes(t, path, req) == Seq::new(path.len(), |k: int| requested_mode(req, k < path.len() - 1)),
    decreases path.len(),
{
    let child = t.children[child_pos(t.children, path[0])].1;
    let tail = path.drop_first();
    assert(path.take(1)[0] == path[0]);
    assert(path.take(1).drop_first() =~= Seq::<Seq<char>>::empty());
    assert(node_at(child, Seq::<Seq<char>>::empty()) == child);
    assert(node_at(t, path.take(0int + 1)) == child);
    assert(child.locks.len() == 0);
    if path.len() == 1 {
        assert(lock_modes(child, Seq::empty(), req) == seq![target_mode_of(req)]);
        assert(lock_modes(t, path, req) =~= Seq::new(path.len(), |k: int| requested_mode(req, k < path.len() - 1)));
    } else {
        assert forall|k: int| 0 <= k < tail.len() implies (#[trigger] node_at(child, tail.take(k + 1))).locks.len() == 0 by {
            assert(path.take(k + 2)[0] == path[0]);
            assert(path.take(k + 2).drop_first() =~= tail.take(k + 1));
            assert(node_at(t, path.take((k + 1) + 1)).locks.len() == 0);
        }
        lemma_unlocked_path_granted(child, tail, req);
        assert(lock_modes(t, path, req) == seq![intention_of(req)] + lock_modes(child, tail, req));
        assert(lock_modes(t, path, req) =~= Seq::new(path.len(), |k: int| requested_mode(req, k < path.len() - 1)));
    }
}

/// `t` with the lock `p` added (a lock already present is not repeated).
pub open spec fn with_lock(t: MGLView, p: (TID, MGLLock)) -> MGLView {
    if t.locks.contains(p) {
        t
    } else {
        MGLView { locks: t.locks.push(p), ..t }
    }
}

/// `t` after `tid` took `modes[i]` on the node `path[0..=i]` leads to.
pub open spec fn add_locks(t: MGLView, path: Seq<Seq<char>>, modes: Seq<MGLLock>, tid: TID) -> MGLView
    decreases path.len(),
{
    if path.len() == 0 || modes.len() == 0 {
        t
    } else {
        let i = child_pos(t.children, path[0]);
        let child = with_lock(t.children[i].1, (tid, modes[0]));
        MGLView {
            children: t.children.update(
                i,
                (t.children[i].0, add_locks(child, path.drop_first(), modes.drop_first(), tid)),
            ),
            ..t
        }
    }
}

/// `t` without any lock of `tid`, at every depth; reports whether `tid`
/// held a lock somewhere in `t`.
pub open spec fn release_tree(t: MGLView, tid: TID) -> (MGLView, bool)
    decreases t,
{
    let (cs, f) = release_list(t.children, tid);
    (
        MGLView { locks: locks_without(t.locks, tid), children: cs },
        f || exists|i: int| 0 <= i < t.locks.len() && #[trigger] t.locks[i].0 == tid,
    )
}

/// `locks` without the locks of `tid`.
pub open spec fn locks_without(locks: Seq<(TID, MGLLock)>, tid: TID) -> Seq<(TID, MGLLock)> {
    locks.filter(|p: (TID, MGLLock)| p.0 != tid)
}

/// [`release_tree`] applied to every child of a list; reports whether `tid`
/// held a lock in one of them.
pub open spec fn release_list(s: Seq<(Seq<char>, MGLView)>, tid: TID) -> (Seq<(Seq<char>, MGLView)>, bool)
    decreases s,
{
    if s.len() == 0 {
        (s, false)
    } else {
        let (c, b) = release_tree(s[0].1, tid);
        let (r, f) = release_list(s.drop_first(), tid);
        (seq![(s[0].0, c)] + r, b || f)
    }
}

/// The tree after a release of every lock of `tid`, and whether it held any.
pub open spec fn tree_after_release(t: MGLView, tid: TID) -> (MGLView, bool) {
    release_tree(t, tid)
}

proof fn lemma_locks_without_none(locks: Seq<(TID, MGLLock)>, tid: TID)
    requires
        forall|i: int| 0 <= i < locks.len() ==> (#[trigger] locks[i]).0 != tid,
    ensures
        locks_without(locks, tid) == locks,
    decreases locks.len(),
{
    reveal_with_fuel(Seq::filter, 1);
    if locks.len() > 0 {
        lemma_locks_without_none(locks.drop_last(), tid);
        assert(locks.drop_last().push(locks.last()) =~= locks);
    }
}

/// A release by a transaction that holds no lock leaves the tree as it was.
pub proof fn lemma_release_nothing(t: MGLView, tid: TID)
    requires
        !release_tree(t, tid).1,
    ensures
        release_tree(t, tid).0 == t,
    decreases t,
{
    lemma_locks_without_none(t.locks, tid);
    lemma_release_list_nothing(t.children, tid);
}

proof fn lemma_release_list_nothing(s: Seq<(Seq<char>, MGLView)>, tid: TID)
    requires
        !release_list(s, tid).1,
    ensures
        release_list(s, tid).0 == s,
    decreases s,
{
    if s.len() > 0 {
        lemma_release_nothing(s[0].1, tid);
        lemma_release_list_nothing(s.drop_first(), tid);
        assert(seq![(s[0].0, s[0].1)] + s.drop_first() =~= s);
    }
}

/// The names of a path.
pub open spec fn path_names(path: Seq<String>) -> Seq<Seq<char>> {
    path.map_values(|s: String| s@)
}

/// The tree of a list of named children has one entry per child, with its
/// name and its tree.
pub proof fn lemma_children_tree(s: Seq<(String, MGLNode)>)
    ensures
        children_tree(s).len() == s.len(),
        forall|i: int|
            0 <= i < s.len() ==> #[trigger] children_tree(s)[i] == (s[i].0@, s[i].1.tree()),
    decreases s.len(),
{
    if s.len() > 0 {
        lemma_children_tree(s.drop_first());
        assert forall|i: int| 0 <= i < s.len() implies #[trigger] children_tree(s)[i] == (
            s[i].0@,
            s[i].1.tree(),
        ) by {
            if i > 0 {
                assert(s.drop_first()[i - 1] == s[i]);
            }
        }
    }
}

proof fn lemma_release_list(s: Seq<(Seq<char>, MGLView)>, tid: TID)
    ensures
        release_list(s, tid).0.len() == s.len(),
        forall|i: int|
            0 <= i < s.len() ==> #[trigger] release_list(s, tid).0[i] == (
                s[i].0,
                release_tree(s[i].1, tid).0,
            ),
        release_list(s, tid).1 == exists|i: int| 0 <= i < s.len() && #[trigger] release_tree(s[i].1, tid).1,
    decreases s.len(),
{
    if s.len() > 0 {
        lemma_release_list(s.drop_first(), tid);
        assert forall|i: int| 0 <= i < s.len() implies #[trigger] release_list(s, tid).0[i] == (
            s[i].0,
            release_tree(s[i].1, tid).0,
        ) by {
            if i > 0 {
                assert(s.drop_first()[i - 1] == s[i]);
            }
        }
        if release_list(s, tid).1 {
            if !release_tree(s[0].1, tid).1 {
                let k = choose|k: int| 0 <= k < s.drop_first().len() && #[trigger] release_tree(s.drop_first()[k].1, tid).1;
                assert(release_tree(s[k + 1].1, tid).1);
            }
        } else {
            assert forall|i: int| 0 <= i < s.len() implies !#[trigger] release_tree(s[i].1, tid).1 by {
                if i > 0 {
                    assert(s.drop_first()[i - 1] == s[i]);
                }
            }
        }
    }
}

proof fn lemma_child_pos_same_names(a: Seq<(Seq<char>, MGLView)>, b: Seq<(Seq<char>, MGLView)>, name: Seq<char>)
    requires
        a.len() == b.len(),
        forall|i: int| 0 <= i < a.len() ==> (#[trigger] a[i]).0 == b[i].0,
    ensures
        child_pos(a, name) == child_pos(b, name),
    decreases a.len(),
{
    if a.len() > 0 {
        assert(a[0].0 == b[0].0);
        assert forall|i: int| 0 <= i < a.drop_first().len() implies (#[trigger] a.drop_first()[i]).0
            == b.drop_first()[i].0 by {
            assert(a[i + 1].0 == b[i + 1].0);
        }
        lemma_child_pos_same_names(a.drop_first(), b.drop_first(), name);
    }
}

/// Releasing removes from every node exactly the locks of `tid`: the node
/// that a path leads to is still reached by that path, and holds a lock after
/// the release exactly when it held it before and the lock is not `tid`'s.
pub proof fn lemma_release_at(t: MGLView, tid: TID, path: Seq<Seq<char>>, p: (TID, MGLLock))
    requires
        path_exists(t, path),
    ensures
        path_exists(release_tree(t, tid).0, path),
        node_at(release_tree(t, tid).0, path).locks.contains(p) <==> node_at(t, path).locks.contains(p)
            && p.0 != tid,
    decreases path.len(),
{
    let r = release_tree(t, tid).0;
    lemma_release_list(t.children, tid);
    if path.len() == 0 {
        broadcast use {vstd::seq_lib::group_filter_ensures, Seq::lemma_filter_contains_rev};

        let l = t.locks;
        let w = locks_without(l, tid);
        assert(node_at(r, path) == r);
        assert(node_at(t, path) == t);
        assert(r.locks == w);
        if w.contains(p) {
            let j = choose|j: int| 0 <= j < w.len() && w[j] == p;
            assert(w[j].0 != tid);
        }
        if l.contains(p) && p.0 != tid {
            let j = choose|j: int| 0 <= j < l.len() && l[j] == p;
            assert(w.contains(l[j]));
        }
        assert(w.contains(p) <==> l.contains(p) && p.0 != tid);
    } else {
        assert forall|i: int| 0 <= i < r.children.len() implies (#[trigger] r.children[i]).0 == t.children[i].0 by {}
        lemma_child_pos_same_names(r.children, t.children, path[0]);
        let i = child_pos(t.children, path[0]);
        lemma_child_pos_range(t.children, path[0]);
        assert(r.children[i] == (t.children[i].0, release_tree(t.children[i].1, tid).0));
        lemma_release_at(t.children[i].1, tid, path.drop_first(), p);
        assert(node_at(r, path) == node_at(release_tree(t.children[i].1, tid).0, path.drop_first()));
        assert(node_at(t, path) == node_at(t.children[i].1, path.drop_first()));
    }
}

proof fn lemma_child_pos_first(children: Seq<(Seq<char>, MGLView)>, name: Seq<char>, i: int)
    requires
        0 <= i < children.len(),
        children[i].0 == name,
        forall|j: int| 0 <= j < i ==> (#[trigger] children[j]).0 != name,
    ensures
        child_pos(children, name) == i,
    decreases i,
{
    if i > 0 {
        assert forall|j: int| 0 <= j < i - 1 implies (#[trigger] children.drop_first()[j]).0
            != name by {
            assert(children.drop_first()[j] == children[j + 1]);
        }
        lemma_child_pos_first(children.drop_first(), name, i - 1);
    }
}

proof fn lemma_child_pos_range(children: Seq<(Seq<char>, MGLView)>, name: Seq<char>)
    ensures
        -1 <= child_pos(children, name) < children.len(),
        child_pos(children, name) >= 0 ==> children[child_pos(children, name)].0 == name,
        child_pos(children, name) < 0 ==> forall|j: int|
            0 <= j < children.len() ==> (#[trigger] children[j]).0 != name,
    decreases children.len(),
{
    if children.len() > 0 {
        lemma_child_pos_range(children.drop_first(), name);
        if child_pos(children, name) < 0 {
            assert forall|j: int| 0 <= j < children.len() implies (#[trigger] children[j]).0
                != name by {
                if j > 0 {
                    assert(children.drop_first()[j - 1] == children[j]);
                }
            }
        }
    }
}

/// Index of the first child of `node` called `name`.
fn find_child(node: &MGLNode, name: &String) -> (r: Option<usize>)
    ensures
        match r {
            Some(i) => i == child_pos(node.tree().children, name@),
            None => child_pos(node.tree().children, name@) < 0,
        },
        r is Some ==> r->Some_0 < node.children.len(),
{
    proof {
        lemma_children_tree(node.children@);
    }
    let mut i: usize = 0;
    while i < node.children.len()
        invariant
            i <= node.children.len(),
            children_tree(node.children@).len() == node.children.len(),
            forall|k: int|
                0 <= k < node.children.len() ==> #[trigger] children_tree(node.children@)[k] == (
                    node.children@[k].0@,
                    node.children@[k].1.tree(),
                ),
            forall|j: int| 0 <= j < i ==> (#[trigger] node.tree().children[j]).0 != name@,
        decreases node.children.len() - i,
    {
        if node.children[i].0 == *name {
            proof {
                lemma_child_pos_first(node.tree().children, name@, i as int);
            }
            return Some(i);
        }
        i = i + 1;
    }
    proof {
        lemma_child_pos_range(node.tree().children, name@);
        if child_pos(node.tree().children, name@) >= 0 {
            let p = child_pos(node.tree().children, name@);
            assert(node.tree().children[p].0 == name@);
        }
    }
    None
}

/// Whether `req` can be granted on `node` (as an intention lock when
/// `intention`).
#[verifier::loop_isolation(false)]
fn can_grant(req: &LockRequest, node: &MGLNode, intention: bool) -> (r: bool)
    ensures
        r == can_grant_spec(*req, node.tree().locks, intention),
{
    if node.locks.len() == 0 {
        return true;
    }
    if node.locks.len() == 1 {
        if node.locks[0].1 == MGLLock::Write {
            return false;
        }
    }
    if *req == LockRequest::Write && !intention {
        return false;
    }
    if *req == LockRequest::Read && intention {
        return true;
    }
    let conflicting = if *req == LockRequest::Read {
        MGLLock::IntentionWrite
    } else {
        MGLLock::Read
    };
    let mut i: usize = 0;
    while i < node.locks.len()
        invariant
            i <= node.locks.len(),
            forall|j: int| 0 <= j < i ==> (#[trigger] node.locks@[j]).1 != conflicting,
        decreases node.locks.len() - i,
    {
        if node.locks[i].1 == conflicting {
            proof {
                assert(node.tree().locks[i as int].1 == conflicting);
            }
            return false;
        }
        i = i + 1;
    }
    true
}

/// Whether `tid` holds some lock in `locks`.
fn holds_any(locks: &Vec<(TID, MGLLock)>, tid: TID) -> (r: bool)
    ensures
        r == exists|i: int| 0 <= i < locks@.len() && #[trigger] locks@[i].0 == tid,
{
    let mut i: usize = 0;
    while i < locks.len()
        invariant
            i <= locks.len(),
            forall|j: int| 0 <= j < i ==> (#[trigger] locks@[j]).0 != tid,
        decreases locks.len() - i,
    {
        if locks[i].0 == tid {
            return true;
        }
        i = i + 1;
    }
    false
}

/// `locks` without the locks of `tid`.
fn drop_locks_of(locks: &Vec<(TID, MGLLock)>, tid: TID) -> (r: Vec<(TID, MGLLock)>)
    ensures
        r@ == locks_without(locks@, tid),
{
    let mut r: Vec<(TID, MGLLock)> = Vec::new();
    let mut i: usize = 0;
    while i < locks.len()
        invariant
            i <= locks.len(),
            r@ == locks_without(locks@.take(i as int), tid),
        decreases locks.len() - i,
    {
        proof {
            reveal_with_fuel(Seq::filter, 1);
            assert(locks@.take(i + 1).drop_last() =~= locks@.take(i as int));
        }
        if locks[i].0 != tid {
            r.push(locks[i]);
        }
        i = i + 1;
    }
    proof {
        assert(locks@.take(locks.len() as int) =~= locks@);
    }
    r
}

/// Removes every lock of `tid` from `node` and the whole subtree below it;
/// reports whether it held one.
fn release_lock_recursive(tid: TID, node: &mut MGLNode) -> (found: bool)
    ensures
        (final(node).tree(), found) == release_tree(old(node).tree(), tid),
    decreases *old(node),
{
    let here = holds_any(&node.locks, tid);
    node.locks = drop_locks_of(&node.locks, tid);
    let n = node.children.len();
    let ghost orig = old(node).children@;
    let ghost orig_t = children_tree(orig);
    proof {
        lemma_children_tree(orig);
        lemma_release_list(orig_t, tid);
    }
    let mut below = false;
    let mut i: usize = 0;
    while i < n
        invariant
            n == orig.len(),
            orig_t == children_tree(orig),
            orig_t.len() == n,
            forall|k: int| 0 <= k < n ==> #[trigger] orig_t[k] == (orig[k].0@, orig[k].1.tree()),
            node.children.len() == n,
            i <= n,
            node.locks@ == locks_without(old(node).locks@, tid),
            forall|j: int|
                0 <= j < i ==> (#[trigger] node.children@[j]).0 == orig[j].0 && node.children@[j].1.tree()
                    == release_tree(orig[j].1.tree(), tid).0,
            forall|j: int| i <= j < n ==> #[trigger] node.children@[j] == orig[j],
            forall|j: int| 0 <= j < n ==> decreases_to!(*old(node) => (#[trigger] orig[j]).1),
            below == exists|j: int| 0 <= j < i && #[trigger] release_tree(orig_t[j].1, tid).1,
        decreases n - i,
    {
        let (name, mut child) = node.children.remove(i);
        assert(child == orig[i as int].1);
        let f = release_lock_recursive(tid, &mut child);
        node.children.insert(i, (name, child));
        let ghost b0 = below;
        below = below || f;
        proof {
            assert(orig_t[i as int].1 == orig[i as int].1.tree());
            assert(f == release_tree(orig_t[i as int].1, tid).1);
            if b0 {
                let k = choose|k: int| 0 <= k < i && #[trigger] release_tree(orig_t[k].1, tid).1;
                assert(0 <= k < i + 1 && release_tree(orig_t[k].1, tid).1);
            } else if f {
                assert(0 <= i < i + 1 && release_tree(orig_t[i as int].1, tid).1);
            } else {
                assert forall|j: int| 0 <= j < i + 1 implies !#[trigger] release_tree(orig_t[j].1, tid).1 by {
                    if j < i {
                    }
                }
            }
        }
        i = i + 1;
    }
    proof {
        lemma_children_tree(node.children@);
        assert(children_tree(node.children@) =~= release_list(orig_t, tid).0);
        assert(old(node).tree().locks == old(node).locks@);
        assert(old(node).tree().children == orig_t);
    }
    here || below
}

/// Adds `modes[idx..]` for `tid` along `path[idx..]`, below `node`.
fn insert_locks(node: &mut MGLNode, path: &Vec<String>, idx: usize, modes: &Vec<MGLLock>, tid: TID)
    requires
        idx <= path.len(),
        idx <= modes.len(),
        path_exists(old(node).tree(), path_names(path@).skip(idx as int)),
    ensures
        final(node).tree() == add_locks(
            old(node).tree(),
            path_names(path@).skip(idx as int),
            modes@.skip(idx as int),
            tid,
        ),
    decreases path.len() - idx,
{
    let ghost rest = path_names(path@).skip(idx as int);
    if idx == path.len() || idx == modes.len() {
        proof {
            if idx == path.len() {
                assert(rest =~= Seq::<Seq<char>>::empty());
            } else {
                assert(modes@.skip(idx as int) =~= Seq::<MGLLock>::empty());
            }
        }
        return;
    }
    proof {
        assert(rest[0] == path@[idx as int]@);
    }
    let pos = find_child(node, &path[idx]).unwrap();
    let (name, mut child) = node.children.remove(pos);
    proof {
        lemma_children_tree(old(node).children@);
        assert(rest.drop_first() =~= path_names(path@).skip(idx + 1));
        assert(modes@.skip(idx as int).drop_first() =~= modes@.skip(idx + 1));
    }
    let mode = modes[idx];
    let mut present = false;
    let mut k: usize = 0;
    while k < child.locks.len()
        invariant
            k <= child.locks.len(),
            present == exists|j: int| 0 <= j < k && #[trigger] child.locks@[j] == (tid, mode),
        decreases child.locks.len() - k,
    {
        if child.locks[k].0 == tid && child.locks[k].1 == mode {
            present = true;
        }
        k = k + 1;
    }
    if !present {
        child.locks.push((tid, mode));
    }
    proof {
        let c = old(node).tree().children[pos as int].1;
        assert(child.tree().children == c.children);
        if present {
            assert(c.locks.contains((tid, mode)));
        } else {
            assert(!c.locks.contains((tid, mode)));
        }
        assert(child.tree() == with_lock(c, (tid, mode)));
        assert(path_exists(c, rest.drop_first()));
        assert(child.tree().children == c.children);
        if rest.drop_first().len() > 0 {
            assert(path_exists(child.tree(), rest.drop_first()));
        }
    }
    insert_locks(&mut child, path, idx + 1, modes, tid);
    node.children.insert(pos, (name, child));
    proof {
        lemma_children_tree(node.children@);
        let t = old(node).tree();
        let i = pos as int;
        assert(children_tree(node.children@) =~= t.children.update(
            i,
            (
                t.children[i].0,
                add_locks(
                    with_lock(t.children[i].1, (tid, mode)),
                    rest.drop_first(),
                    modes@.skip(idx as int).drop_first(),
                    tid,
                ),
            ),
        ));
    }
}

/// The lock tree of the multi-granularity protocol.
pub struct MultiGranularityLockTree {
    root: MGLNode,
}

impl MultiGranularityLockTree {
    /// Constructs a lock tree over `root`; the root itself is never part of a
    /// path.
    pub fn new(root: MGLNode) -> (t: Self)
        ensures
            t.tree() == root.tree(),
    {
        Self { root }
    }

    /// The current tree.
    pub closed spec fn tree(&self) -> MGLView {
        self.root.tree()
    }

    /// The node that `path` leads to.
    pub fn get_state(&self, path: &Vec<String>) -> (r: &MGLNode)
        requires
            path_exists(self.tree(), path_names(path@)),
        ensures
            r.tree() == node_at(self.tree(), path_names(path@)),
    {
        let mut cur: &MGLNode = &self.root;
        let mut i: usize = 0;
        proof {
            assert(path_names(path@).skip(0) =~= path_names(path@));
        }
        while i < path.len()
            invariant
                i <= path.len(),
                path_exists(cur.tree(), path_names(path@).skip(i as int)),
                node_at(self.tree(), path_names(path@)) == node_at(
                    cur.tree(),
                    path_names(path@).skip(i as int),
                ),
            decreases path.len() - i,
        {
            let ghost rest = path_names(path@).skip(i as int);
            proof {
                assert(rest[0] == path@[i as int]@);
                assert(rest.drop_first() =~= path_names(path@).skip(i + 1));
                lemma_children_tree(cur.children@);
            }
            let pos = find_child(cur, &path[i]).unwrap();
            cur = &cur.children[pos].1;
            i = i + 1;
        }
        proof {
            assert(path_names(path@).skip(path.len() as int) =~= Seq::<Seq<char>>::empty());
        }
        cur
    }

    /// Requests `req` for `tid` on the node that `path` leads to: an intention
    /// lock on every node of the path but the last, and the lock itself on the
    /// last. Returns the modes decided along the path. When a node refuses,
    /// the returned modes end with `Denied`, nothing is granted, and every lock
    /// of `tid` is released.
    pub fn lock(&mut self, tid: TID, path: Vec<String>, req: LockRequest) -> (r: Vec<MGLLock>)
        requires
            path_exists(old(self).tree(), path_names(path@)),
        ensures
            r@ == lock_modes(old(self).tree(), path_names(path@), req),
            r@.last() == MGLLock::Denied ==> final(self).tree() == tree_after_release(
                old(self).tree(),
                tid,
            ).0,
            r@.last() == MGLLock::Denied && !tree_after_release(old(self).tree(), tid).1 ==> final(self).tree()
                == old(self).tree(),
            r@.last() != MGLLock::Denied ==> final(self).tree() == add_locks(
                old(self).tree(),
                path_names(path@),
                r@,
                tid,
            ),
    {
        let ghost names = path_names(path@);
        let mut vec: Vec<MGLLock> = Vec::new();
        let mut cur: &MGLNode = &self.root;
        let mut index: usize = 0;
        proof {
            assert(names.skip(0) =~= names);
        }
        loop
            invariant_except_break
                index < path.len() || path.len() == 0,
                lock_modes(self.tree(), names, req) == vec@ + lock_modes(
                    cur.tree(),
                    names.skip(index as int),
                    req,
                ),
                path_exists(cur.tree(), names.skip(index as int)),
                vec@.len() == index,
            invariant
                index <= path.len(),
                names == path_names(path@),
                *self == *old(self),
                forall|j: int| 0 <= j < vec@.len() ==> vec@[j] != MGLLock::Denied,
            ensures
                lock_modes(self.tree(), names, req) == vec@ + lock_modes(
                    cur.tree(),
                    Seq::empty(),
                    req,
                ),
                path.len() == 0 || vec@.len() + 1 == path.len(),
            decreases path.len() - index,
        {
            if index >= path.len() {
                proof {
                    assert(names.skip(index as int) =~= Seq::<Seq<char>>::empty());
                }
                break;
            }
            let ghost rest = names.skip(index as int);
            proof {
                assert(rest[0] == path@[index as int]@);
                assert(rest.drop_first() =~= names.skip(index + 1));
                lemma_children_tree(cur.children@);
            }
            let ghost prev = cur.tree();
            let ghost old_vec = vec@;
            let pos = find_child(cur, &path[index]).unwrap();
            cur = &cur.children[pos].1;
            proof {
                assert(cur.tree() == prev.children[child_pos(prev.children, rest[0])].1);
            }
            if index == path.len() - 1 {
                proof {
                    assert(rest.len() == 1);
                }
                break;
            }
            if can_grant(&req, cur, true) {
                let lock = if req == LockRequest::Write {
                    MGLLock::IntentionWrite
                } else {
                    MGLLock::IntentionRead
                };
                vec.push(lock);
                proof {
                    assert(lock_modes(prev, rest, req) == seq![lock] + lock_modes(
                        cur.tree(),
                        rest.drop_first(),
                        req,
                    ));
                    assert(vec@ + lock_modes(cur.tree(), names.skip(index + 1), req) =~= old_vec + (
                    seq![lock] + lock_modes(cur.tree(), names.skip(index + 1), req)));
                }
                index = index + 1;
            } else {
                vec.push(MGLLock::Denied);
                proof {
                    assert(lock_modes(prev, rest, req) == seq![MGLLock::Denied]);
                    assert(vec@ =~= old_vec + seq![MGLLock::Denied]);
                }
                let _ = self.release(tid);
                proof {
                    if !tree_after_release(old(self).tree(), tid).1 {
                        lemma_release_nothing(old(self).tree(), tid);
                    }
                }
                return vec;
            }
        }
        let ghost final_node = cur.tree();
        if can_grant(&req, cur, false) {
            let lock = if req == LockRequest::Write {
                MGLLock::Write
            } else {
                MGLLock::Read
            };
            vec.push(lock);
        } else {
            vec.push(MGLLock::Denied);
            let _ = self.release(tid);
            proof {
                if !tree_after_release(old(self).tree(), tid).1 {
                    lemma_release_nothing(old(self).tree(), tid);
                }
            }
            return vec;
        }
        proof {
            assert(names.skip(0) =~= names);
        }
        insert_locks(&mut self.root, &path, 0, &vec, tid);
        proof {
            assert(vec@.skip(0) =~= vec@);
        }
        vec
    }

    /// Releases every lock that `tid` holds anywhere in the tree;
    /// `LockNotHeld` when it holds none.
    pub fn release(&mut self, tid: TID) -> (r: Result<(), LockingError>)
        ensures
            final(self).tree() == tree_after_release(old(self).tree(), tid).0,
            r is Ok <==> tree_after_release(old(self).tree(), tid).1,
            r is Err ==> r == Err::<(), LockingError>(LockingError::LockNotHeld),
    {
        let found = release_lock_recursive(tid, &mut self.root);
        if !found {
            return Err(LockingError::LockNotHeld);
        }
        Ok(())
    }
}

} // verus!
