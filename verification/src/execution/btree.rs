//! A unique B+ tree over `i32` keys whose pages live in a page vector.
//!
//! Inner pages route by separator keys: the key of record `i` is the lower
//! bound of the child in record `i + 1`, and the key of the last record is
//! never consulted. Leaves hold their records sorted by key and are linked
//! to their right neighbours. A page's id is its index in the vector.

use vstd::prelude::*;

use super::{PageID, RecordID};

verus! {

/// Records per inner page.
pub const INNER_CAPACITY: usize = 508;

/// Records per leaf page.
pub const LEAF_CAPACITY: usize = 336;

/// A key with its value: a child page in inner pages, a record id in
/// leaves.
#[derive(Clone, Copy, Debug)]
pub struct BTreeRecord<V> {
    pub key: i32,
    pub value: V,
}

/// Neighbour links of a leaf.
#[derive(Clone, Copy, Debug)]
pub struct BTreeHeader {
    pub left: Option<PageID>,
    pub right: Option<PageID>,
}

/// An inner page: separator keys with child pages.
pub struct InnerPage {
    pub records: Vec<BTreeRecord<PageID>>,
    pub id: PageID,
}

/// A leaf page: keys with record ids, sorted by key.
pub struct LeafPage {
    pub records: Vec<BTreeRecord<RecordID>>,
    pub header: BTreeHeader,
    pub id: PageID,
}

/// A page of the tree.
pub enum Page {
    INNER(InnerPage),
    LEAF(LeafPage),
}

impl LeafPage {
    /// An empty leaf with id `id` and no neighbours.
    pub fn empty(id: PageID) -> (l: LeafPage)
        ensures
            l.records@.len() == 0,
            l.id == id,
            l.header.left is None,
            l.header.right is None,
    {
        LeafPage { records: Vec::new(), header: BTreeHeader { left: None, right: None }, id }
    }
}

impl Page {
    /// The page of an empty tree: an empty leaf with id 0.
    pub fn default() -> (p: Page)
        ensures
            p is LEAF,
            p->LEAF_0.records@.len() == 0,
            p->LEAF_0.id == PageID(0),
            p->LEAF_0.header.left is None,
            p->LEAF_0.header.right is None,
    {
        Page::LEAF(LeafPage::empty(PageID(0)))
    }
}

/// The keys of leaf `l`, in slot order.
pub open spec fn leaf_keys(l: &LeafPage) -> Seq<i32> {
    l.records@.map_values(|r: BTreeRecord<RecordID>| r.key)
}

/// The first slot of leaf `l` whose key is at least `key` (the number of
/// slots when there is none).
pub open spec fn leaf_pos(keys: Seq<i32>, key: i32, i: int) -> int
    decreases keys.len() - i,
{
    if i < 0 || i >= keys.len() {
        keys.len() as int
    } else if keys[i] >= key {
        i
    } else {
        leaf_pos(keys, key, i + 1)
    }
}

/// The record id stored under `key` in leaf `l`.
pub open spec fn leaf_find(l: &LeafPage, key: i32) -> Option<RecordID> {
    let p = leaf_pos(leaf_keys(l), key, 0);
    if p < l.records@.len() && l.records@[p].key == key {
        Some(l.records@[p].value)
    } else {
        None
    }
}

/// The slot of inner page `p` whose child covers `key`: the first record
/// among all but the last whose key exceeds `key`, else the last record.
pub open spec fn child_slot(records: Seq<BTreeRecord<PageID>>, key: i32, i: int) -> int
    decreases records.len() - i,
{
    if i < 0 || i >= records.len() - 1 {
        if records.len() > 0 { records.len() - 1 } else { 0 }
    } else if records[i].key > key {
        i
    } else {
        child_slot(records, key, i + 1)
    }
}

/// `keys` is strictly increasing.
pub open spec fn strictly_sorted(keys: Seq<i32>) -> bool {
    forall|i: int, j: int| 0 <= i < j < keys.len() ==> keys[i] < keys[j]
}

/// The leaf that routing `key` from page `p` reaches within `n` levels.
pub open spec fn route(b: Seq<Page>, p: int, key: i32, n: nat) -> int
    decreases n,
{
    if 0 <= p < b.len() && b[p] is INNER && n > 0 {
        let recs = b[p]->INNER_0.records@;
        route(b, recs[child_slot(recs, key, 0)].value.0 as int, key, (n - 1) as nat)
    } else {
        p
    }
}

/// Ghost bookkeeping of a tree: the level of each page (leaves are at 0),
/// the key interval `[lo, hi)` each page covers, and each page's parent.
pub struct TreeGhost {
    pub level: Map<int, nat>,
    pub lo: Map<int, int>,
    pub hi: Map<int, int>,
    pub parent: Map<int, int>,
}

/// Lower bound of slot `i` of an inner page covering `[lo, ..)`.
pub open spec fn slot_lo(records: Seq<BTreeRecord<PageID>>, lo: int, i: int) -> int {
    if i == 0 {
        lo
    } else {
        records[i - 1].key as int
    }
}

/// Upper bound of slot `i` of an inner page covering `[.., hi)`.
pub open spec fn slot_hi(records: Seq<BTreeRecord<PageID>>, hi: int, i: int) -> int {
    if i == records.len() - 1 {
        hi
    } else {
        records[i].key as int
    }
}

/// Page `p` is consistent with its ghost data: a leaf holds at most
/// [`LEAF_CAPACITY`] records with strictly increasing keys inside its
/// interval; an inner page holds between one and [`INNER_CAPACITY`] records
/// with strictly increasing separators inside its interval, and its
/// children are distinct pages one
/// level lower, whose parent it is and whose intervals its separators cut.
pub open spec fn page_ok(b: Seq<Page>, g: TreeGhost, p: int) -> bool {
    match b[p] {
        Page::LEAF(l) => {
            &&& g.level[p] == 0
            &&& l.records@.len() <= LEAF_CAPACITY
            &&& strictly_sorted(leaf_keys(&l))
            &&& forall|i: int|
                0 <= i < l.records@.len() ==> g.lo[p] <= (#[trigger] l.records@[i]).key < g.hi[p]
        },
        Page::INNER(ip) => {
            let r = ip.records@;
            &&& g.level[p] >= 1
            &&& 1 <= r.len() <= INNER_CAPACITY
            &&& forall|i: int, j: int| 0 <= i < j < r.len() - 1 ==> (#[trigger] r[i]).key < (#[trigger] r[j]).key
            &&& forall|i: int| 0 <= i < r.len() - 1 ==> g.lo[p] < (#[trigger] r[i]).key < g.hi[p]
            &&& forall|i: int, j: int| 0 <= i < j < r.len() ==> (#[trigger] r[i]).value != (#[trigger] r[j]).value
            &&& forall|i: int|
                0 <= i < r.len() ==> {
                    let c = (#[trigger] r[i].value).0 as int;
                    &&& 0 <= c < b.len()
                    &&& g.level[c] + 1 == g.level[p]
                    &&& g.parent[c] == p
                    &&& g.lo[c] == slot_lo(r, g.lo[p], i)
                    &&& g.hi[c] == slot_hi(r, g.hi[p], i)
                }
        },
    }
}

/// Every page except `e` is consistent.
pub open spec fn ok_except(b: Seq<Page>, g: TreeGhost, e: int) -> bool {
    forall|x: int| 0 <= x < b.len() && x != e ==> #[trigger] page_ok(b, g, x)
}

/// A unique B+ tree: its root page.
pub struct UniqueBPlusTree {
    pub root_page: PageID,
    pub ghost_state: Ghost<TreeGhost>,
}

impl UniqueBPlusTree {
    /// The tree's ghost bookkeeping.
    pub open spec fn ghost(&self) -> TreeGhost {
        self.ghost_state@
    }

    /// The tree over `b` is consistent: every page is, the root covers all
    /// keys, has no parent, and page ids fit a `u32`.
    pub open spec fn wf(&self, b: Seq<Page>) -> bool {
        let g = self.ghost();
        let root = self.root_page.0 as int;
        &&& root < b.len()
        &&& b.len() <= u32::MAX
        &&& ok_except(b, g, -1)
        &&& g.lo[root] == i32::MIN
        &&& g.hi[root] == i32::MAX + 1
        &&& g.parent[root] == -1
        &&& forall|x: int| 0 <= x < b.len() ==> #[trigger] g.level[x] < b.len()
        &&& leaves_ok(b, g)
    }

    /// The leaf that a lookup of `key` reaches.
    pub open spec fn leaf_of(&self, b: Seq<Page>, key: i32) -> int {
        route(b, self.root_page.0 as int, key, self.ghost().level[self.root_page.0 as int])
    }

    /// What the tree over `b` maps `key` to.
    pub open spec fn maps(&self, b: Seq<Page>, key: i32) -> Option<RecordID> {
        leaf_find(&b[self.leaf_of(b, key)]->LEAF_0, key)
    }

    /// The tree of an empty page vector: one empty leaf, the root.
    pub fn new(buffer: &mut Vec<Page>) -> (t: Self)
        requires
            old(buffer)@.len() == 0,
        ensures
            final(buffer)@.len() == 1,
            final(buffer)@[0] is LEAF,
            final(buffer)@[0]->LEAF_0.records@.len() == 0,
            final(buffer)@[0]->LEAF_0.id == PageID(0),
            final(buffer)@[0]->LEAF_0.header.left is None,
            final(buffer)@[0]->LEAF_0.header.right is None,
            t.root_page == PageID(0),
            t.wf(final(buffer)@),
            forall|k: i32| t.maps(final(buffer)@, k) is None,
    {
        let tree = UniqueBPlusTree {
            root_page: PageID(0),
            ghost_state: Ghost(
                TreeGhost {
                    level: Map::new(|x: int| true, |x: int| 0nat),
                    lo: Map::new(|x: int| true, |x: int| i32::MIN as int),
                    hi: Map::new(|x: int| true, |x: int| i32::MAX + 1),
                    parent: Map::new(|x: int| true, |x: int| -1int),
                },
            ),
        };
        buffer.push(Page::default());
        proof {
            assert(page_ok(buffer@, tree.ghost(), 0));
            reveal(leaves_ok);
        }
        tree
    }
}

/// What [`child_slot`] finds: the first slot from `i` on, among all but the
/// last, whose key exceeds `key`, or the last slot.
proof fn lemma_child_slot(recs: Seq<BTreeRecord<PageID>>, key: i32, i: int)
    requires
        recs.len() >= 1,
        0 <= i <= recs.len() - 1,
        forall|j: int| 0 <= j < i ==> (#[trigger] recs[j]).key <= key,
    ensures
        i <= child_slot(recs, key, i) <= recs.len() - 1,
        forall|j: int| 0 <= j < child_slot(recs, key, i) ==> (#[trigger] recs[j]).key <= key,
        child_slot(recs, key, i) < recs.len() - 1 ==> recs[child_slot(recs, key, i)].key > key,
    decreases recs.len() - i,
{
    if i < recs.len() - 1 && recs[i].key <= key {
        lemma_child_slot(recs, key, i + 1);
    }
}

/// What [`leaf_pos`] finds: the first slot from `i` on whose key is at
/// least `key`, or the number of slots.
pub(crate) proof fn lemma_leaf_pos(keys: Seq<i32>, key: i32, i: int)
    requires
        0 <= i <= keys.len(),
        forall|j: int| 0 <= j < i ==> keys[j] < key,
    ensures
        i <= leaf_pos(keys, key, i) <= keys.len(),
        forall|j: int| 0 <= j < leaf_pos(keys, key, i) ==> keys[j] < key,
        leaf_pos(keys, key, i) < keys.len() ==> keys[leaf_pos(keys, key, i)] >= key,
    decreases keys.len() - i,
{
    if i < keys.len() && keys[i] < key {
        lemma_leaf_pos(keys, key, i + 1);
    }
}

/// Routing from a consistent page ends at a leaf.
pub(crate) proof fn lemma_route_leaf(b: Seq<Page>, g: TreeGhost, p: int, key: i32)
    requires
        ok_except(b, g, -1),
        0 <= p < b.len(),
    ensures
        0 <= route(b, p, key, g.level[p]) < b.len(),
        b[route(b, p, key, g.level[p])] is LEAF,
    decreases g.level[p],
{
    assert(page_ok(b, g, p));
    if b[p] is INNER {
        let recs = b[p]->INNER_0.records@;
        lemma_child_slot(recs, key, 0);
        let i = child_slot(recs, key, 0);
        let c = recs[i].value.0 as int;
        assert(g.level[c] + 1 == g.level[p]);
        lemma_route_leaf(b, g, c, key);
    }
}

/// Routing a key of a page's interval ends at a leaf whose interval holds
/// the key.
pub(crate) proof fn lemma_route_interval(b: Seq<Page>, g: TreeGhost, p: int, key: i32)
    requires
        ok_except(b, g, -1),
        0 <= p < b.len(),
        g.lo[p] <= key < g.hi[p],
    ensures
        0 <= route(b, p, key, g.level[p]) < b.len(),
        b[route(b, p, key, g.level[p])] is LEAF,
        g.lo[route(b, p, key, g.level[p])] <= key < g.hi[route(b, p, key, g.level[p])],
    decreases g.level[p],
{
    assert(page_ok(b, g, p));
    if b[p] is INNER {
        let recs = b[p]->INNER_0.records@;
        lemma_child_slot(recs, key, 0);
        let i = child_slot(recs, key, 0);
        let c = recs[i].value.0 as int;
        assert(g.level[c] + 1 == g.level[p]);
        assert(g.lo[c] <= key) by {
            if i > 0 {
                assert(recs[i - 1].key <= key);
            }
        }
        lemma_route_interval(b, g, c, key);
    }
}

impl UniqueBPlusTree {
    /// The slot of `inner_page` whose child covers `key` (a binary search
    /// over the separators).
    fn optimized_bsearch_inner(&self, inner_page: &InnerPage, key: i32) -> (r: usize)
        requires
            inner_page.records@.len() >= 1,
            forall|i: int, j: int|
                0 <= i < j < inner_page.records@.len() - 1 ==> (#[trigger] inner_page.records@[i]).key
                    <= (#[trigger] inner_page.records@[j]).key,
        ensures
            r == child_slot(inner_page.records@, key, 0),
    {
        let ghost recs = inner_page.records@;
        let n = inner_page.records.len() - 1;
        let mut lo: usize = 0;
        let mut hi: usize = n;
        while lo < hi
            invariant
                recs == inner_page.records@,
                n == recs.len() - 1,
                lo <= hi <= n,
                forall|j: int| 0 <= j < lo ==> (#[trigger] recs[j]).key <= key,
                forall|j: int| hi <= j < n ==> (#[trigger] recs[j]).key > key,
                forall|i: int, j: int| 0 <= i < j < n ==> (#[trigger] recs[i]).key <= (#[trigger] recs[j]).key,
            decreases hi - lo,
        {
            let mid = lo + (hi - lo) / 2;
            if inner_page.records[mid].key <= key {
                lo = mid + 1;
            } else {
                hi = mid;
            }
        }
        proof {
            lemma_child_slot(recs, key, 0);
            let s = child_slot(recs, key, 0);
            if s < lo {
                assert(recs[s].key <= key);
            } else if s > lo {
                assert(recs[lo as int].key <= key);
            }
        }
        lo
    }

    /// The first slot of `leaf_page` whose key is at least `key`, and
    /// whether that key is `key` (a binary search).
    pub(crate) fn optimized_bsearch_leaf(&self, leaf_page: &LeafPage, key: i32) -> (r: (usize, bool))
        requires
            strictly_sorted(leaf_keys(leaf_page)),
        ensures
            r.0 == leaf_pos(leaf_keys(leaf_page), key, 0),
            r.1 == (r.0 < leaf_page.records@.len() && leaf_page.records@[r.0 as int].key == key),
    {
        let ghost keys = leaf_keys(leaf_page);
        let n = leaf_page.records.len();
        let mut lo: usize = 0;
        let mut hi: usize = n;
        while lo < hi
            invariant
                keys == leaf_keys(leaf_page),
                n == keys.len(),
                lo <= hi <= n,
                forall|j: int| 0 <= j < lo ==> keys[j] < key,
                forall|j: int| hi <= j < n ==> keys[j] >= key,
                strictly_sorted(keys),
            decreases hi - lo,
        {
            let mid = lo + (hi - lo) / 2;
            proof {
                assert(keys[mid as int] == leaf_page.records@[mid as int].key);
            }
            if leaf_page.records[mid].key < key {
                lo = mid + 1;
            } else {
                hi = mid;
            }
        }
        proof {
            lemma_leaf_pos(keys, key, 0);
            let s = leaf_pos(keys, key, 0);
            if s < lo {
                assert(keys[s] < key);
            } else if s > lo {
                assert(keys[lo as int] < key);
            }
        }
        let found = lo < n && leaf_page.records[lo].key == key;
        (lo, found)
    }

    /// The leaf that routing `key` from page `page_id` reaches.
    pub(crate) fn lookup_leaf<'a>(&self, page_id: PageID, buffer: &'a Vec<Page>, key: i32) -> (r: &'a LeafPage)
        requires
            ok_except(buffer@, self.ghost(), -1),
            (page_id.0 as int) < buffer@.len(),
        ensures
            buffer@[route(buffer@, page_id.0 as int, key, self.ghost().level[page_id.0 as int])] == Page::LEAF(*r),
        decreases self.ghost().level[page_id.0 as int],
    {
        let ghost g = self.ghost();
        let ghost p = page_id.0 as int;
        proof {
            assert(page_ok(buffer@, g, p));
        }
        match &buffer[page_id.0 as usize] {
            Page::INNER(inner_page) => {
                let index = self.optimized_bsearch_inner(inner_page, key);
                proof {
                    lemma_child_slot(inner_page.records@, key, 0);
                }
                let next_page_id = inner_page.records[index].value;
                proof {
                    assert(g.level[next_page_id.0 as int] + 1 == g.level[p]);
                }
                self.lookup_leaf(next_page_id, buffer, key)
            },
            Page::LEAF(leaf_page) => leaf_page,
        }
    }

    /// The record id stored under `key`, if any.
    pub fn lookup(&self, buffer: &Vec<Page>, key: i32) -> (r: Option<RecordID>)
        requires
            self.wf(buffer@),
        ensures
            r == self.maps(buffer@, key),
    {
        if self.root_page.0 as usize >= buffer.len() {
            return None;
        }
        let leaf_page = self.lookup_leaf(self.root_page, buffer, key);
        proof {
            lemma_route_leaf(buffer@, self.ghost(), self.root_page.0 as int, key);
            assert(page_ok(buffer@, self.ghost(), self.leaf_of(buffer@, key)));
        }
        let (index, found) = self.optimized_bsearch_leaf(leaf_page, key);
        if found {
            Some(leaf_page.records[index].value)
        } else {
            None
        }
    }
}

/// The records of inner page `r` after the child in slot `i` was split
/// into itself and `child`, divided at `sep`.
pub open spec fn with_child(r: Seq<BTreeRecord<PageID>>, i: int, sep: i32, child: PageID) -> Seq<BTreeRecord<PageID>> {
    r.subrange(0, i) + seq![
        BTreeRecord { key: sep, value: r[i].value },
        BTreeRecord { key: r[i].key, value: child },
    ] + r.subrange(i + 1, r.len() as int)
}

/// Splits slot `index` of `page`: the slot's child keeps the keys below
/// `sep`, `child` follows it with the keys from `sep` on.
fn insert_child(page: &mut InnerPage, index: usize, sep: i32, child: PageID)
    requires
        index < old(page).records@.len(),
    ensures
        final(page).records@ == with_child(old(page).records@, index as int, sep, child),
        final(page).id == old(page).id,
{
    let n = page.records.len();
    let old_id = page.records[index].value;
    let old_key = page.records[index].key;
    page.records.insert(index, BTreeRecord { key: sep, value: old_id });
    page.records.set(index + 1, BTreeRecord { key: old_key, value: child });
    proof {
        assert(page.records@ =~= with_child(old(page).records@, index as int, sep, child));
    }
}

/// The leaf records `r` with `(key, rid)` in slot `i`: stored over the key
/// when it is there, inserted before slot `i` otherwise.
pub open spec fn leaf_with(r: Seq<BTreeRecord<RecordID>>, i: int, key: i32, rid: RecordID) -> Seq<BTreeRecord<RecordID>> {
    if i < r.len() && r[i].key == key {
        r.update(i, BTreeRecord { key, value: rid })
    } else {
        r.insert(i, BTreeRecord { key, value: rid })
    }
}

impl UniqueBPlusTree {
    /// Stores `rid` under `key` in `leaf_page`: over the old record id when
    /// the key is there, as a new record in key order otherwise.
    fn add_to_leaf(&self, rid: RecordID, key: i32, leaf_page: &mut LeafPage)
        requires
            strictly_sorted(leaf_keys(old(leaf_page))),
        ensures
            final(leaf_page).records@ == leaf_with(
                old(leaf_page).records@,
                leaf_pos(leaf_keys(old(leaf_page)), key, 0),
                key,
                rid,
            ),
            final(leaf_page).header == old(leaf_page).header,
            final(leaf_page).id == old(leaf_page).id,
    {
        let (index, found) = self.optimized_bsearch_leaf(leaf_page, key);
        proof {
            lemma_leaf_pos(leaf_keys(leaf_page), key, 0);
        }
        if found {
            leaf_page.records.set(index, BTreeRecord { key, value: rid });
        } else {
            leaf_page.records.insert(index, BTreeRecord { key, value: rid });
        }
    }
}

/// Inserting `(key, rid)` where [`leaf_pos`] says keeps a leaf sorted and
/// makes `key` map to `rid`; other keys keep their record ids, and every key
/// is an old key or `key`.
proof fn lemma_leaf_with(r: Seq<BTreeRecord<RecordID>>, key: i32, rid: RecordID)
    requires
        strictly_sorted(r.map_values(|x: BTreeRecord<RecordID>| x.key)),
    ensures
        ({
            let keys = r.map_values(|x: BTreeRecord<RecordID>| x.key);
            let i = leaf_pos(keys, key, 0);
            let r2 = leaf_with(r, i, key, rid);
            let keys2 = r2.map_values(|x: BTreeRecord<RecordID>| x.key);
            &&& strictly_sorted(keys2)
            &&& leaf_pos(keys2, key, 0) == i
            &&& r2[i] == (BTreeRecord { key, value: rid })
            &&& forall|j: int| 0 <= j < r2.len() ==> (#[trigger] r2[j]).key == key || exists|k: int|
                0 <= k < r.len() && r[k].key == r2[j].key
            &&& r2.len() == if i < r.len() && r[i].key == key { r.len() } else { r.len() + 1 }
        }),
{
    let keys = r.map_values(|x: BTreeRecord<RecordID>| x.key);
    lemma_leaf_pos(keys, key, 0);
    let i = leaf_pos(keys, key, 0);
    let r2 = leaf_with(r, i, key, rid);
    let keys2 = r2.map_values(|x: BTreeRecord<RecordID>| x.key);
    if i < r.len() && r[i].key == key {
        assert(keys2 =~= keys);
    } else {
        assert(keys2 =~= keys.insert(i, key));
        assert forall|a: int, b: int| 0 <= a < b < keys2.len() implies keys2[a] < keys2[b] by {
            if b < i {
            } else if a < i && b == i {
            } else if a < i {
                assert(keys[a] < keys[b - 1]);
                assert(keys[i] > key || i == keys.len());
            } else if a == i {
                assert(keys[b - 1] >= keys[i]);
            } else {
            }
        }
        assert forall|j: int| 0 <= j < r2.len() implies (#[trigger] r2[j]).key == key || exists|k: int|
            0 <= k < r.len() && r[k].key == r2[j].key by {
            if j < i {
                assert(r2[j] == r[j]);
            } else if j > i {
                assert(r2[j] == r[j - 1]);
            }
        }
    }
    lemma_leaf_pos(keys2, key, 0);
    let i2 = leaf_pos(keys2, key, 0);
    if i2 < i {
        assert(keys2[i2] == keys[i2]);
    } else if i2 > i {
        assert(keys2[i] == key);
    }
}

/// The lower half a full leaf keeps when `rec` goes to slot `i`.
pub open spec fn leaf_lower(r: Seq<BTreeRecord<RecordID>>, i: int, rec: BTreeRecord<RecordID>) -> Seq<BTreeRecord<RecordID>> {
    if i < 168 {
        r.subrange(0, 168).insert(i, rec)
    } else {
        r.subrange(0, 168)
    }
}

/// The upper half a full leaf hands to its new right neighbour when `rec`
/// goes to slot `i`.
pub open spec fn leaf_upper(r: Seq<BTreeRecord<RecordID>>, i: int, rec: BTreeRecord<RecordID>) -> Seq<BTreeRecord<RecordID>> {
    if i < 168 {
        r.subrange(168, r.len() as int)
    } else {
        r.subrange(168, r.len() as int).insert(i - 168, rec)
    }
}

/// The records a full inner page keeps: slots `0..=254` (the key of the
/// last is no longer consulted).
pub open spec fn inner_lower(r: Seq<BTreeRecord<PageID>>) -> Seq<BTreeRecord<PageID>> {
    r.subrange(0, 255)
}

/// The records a full inner page hands to its new right neighbour.
pub open spec fn inner_upper(r: Seq<BTreeRecord<PageID>>) -> Seq<BTreeRecord<PageID>> {
    r.subrange(255, r.len() as int)
}

impl UniqueBPlusTree {
    /// Splits the full leaf `page_id` while inserting `(key, rid)` at slot
    /// `insert_idx`: the upper half moves to a new leaf appended to
    /// `buffer`, linked as the right neighbour. Returns the new leaf's
    /// smallest key and its id.
    fn split_leaf(
        &self,
        buffer: &mut Vec<Page>,
        page_id: PageID,
        key: i32,
        rid: RecordID,
        insert_idx: usize,
    ) -> (r: (i32, PageID))
        requires
            (page_id.0 as int) < old(buffer)@.len(),
            old(buffer)@.len() < u32::MAX,
            old(buffer)@[page_id.0 as int] is LEAF,
            old(buffer)@[page_id.0 as int]->LEAF_0.records@.len() == LEAF_CAPACITY,
            insert_idx <= LEAF_CAPACITY,
        ensures
            ({
                let p = page_id.0 as int;
                let n = old(buffer)@.len();
                let old_leaf = old(buffer)@[p]->LEAF_0;
                let rec = BTreeRecord { key, value: rid };
                let upper = leaf_upper(old_leaf.records@, insert_idx as int, rec);
                &&& final(buffer)@.len() == n + 1
                &&& forall|x: int| 0 <= x < n && x != p ==> #[trigger] final(buffer)@[x] == old(buffer)@[x]
                &&& final(buffer)@[p] is LEAF
                &&& final(buffer)@[p]->LEAF_0.records@ == leaf_lower(old_leaf.records@, insert_idx as int, rec)
                &&& final(buffer)@[p]->LEAF_0.header.right == Some(PageID(n as u32))
                &&& final(buffer)@[n as int] is LEAF
                &&& final(buffer)@[n as int]->LEAF_0.records@ == upper
                &&& final(buffer)@[n as int]->LEAF_0.header.right == old_leaf.header.right
                &&& r == (upper[0].key, PageID(n as u32))
            }),
    {
        let new_page_id = PageID(buffer.len() as u32);
        let p = page_id.0 as usize;
        let mut taken = Page::default();
        core::mem::swap(&mut buffer[p], &mut taken);
        let mut old_page = match taken {
            Page::LEAF(l) => l,
            Page::INNER(_) => LeafPage::empty(page_id),
        };
        let split_idx: usize = 168;
        let mut upper = old_page.records.split_off(split_idx);
        let rec = BTreeRecord { key, value: rid };
        if insert_idx < split_idx {
            old_page.records.insert(insert_idx, rec);
        } else {
            upper.insert(insert_idx - split_idx, rec);
        }
        let new_leaf = LeafPage {
            records: upper,
            header: BTreeHeader { left: Some(page_id), right: old_page.header.right },
            id: new_page_id,
        };
        old_page.header.right = Some(new_page_id);
        let comp_key = new_leaf.records[0].key;
        buffer.set(p, Page::LEAF(old_page));
        buffer.push(Page::LEAF(new_leaf));
        (comp_key, new_page_id)
    }

    /// Splits the full inner page `page_id` while adding `new_child` (a
    /// separator with the child that follows it): slots from 255 on move
    /// to a new inner page appended to `buffer`, and the child goes to the
    /// half its separator falls in. Returns the key of slot 254, which
    /// separates the halves, and the new page's id.
    fn split_inner(&mut self, buffer: &mut Vec<Page>, page_id: PageID, new_child: (i32, PageID)) -> (r: (i32, PageID))
        requires
            (page_id.0 as int) < old(buffer)@.len(),
            old(buffer)@.len() < u32::MAX,
            old(buffer)@[page_id.0 as int] is INNER,
            old(buffer)@[page_id.0 as int]->INNER_0.records@.len() == INNER_CAPACITY,
            ({
                let rr = old(buffer)@[page_id.0 as int]->INNER_0.records@;
                forall|i: int, j: int| 0 <= i < j < rr.len() - 1 ==> (#[trigger] rr[i]).key <= (#[trigger] rr[j]).key
            }),
        ensures
            *final(self) == *old(self),
            ({
                let p = page_id.0 as int;
                let n = old(buffer)@.len();
                let rr = old(buffer)@[p]->INNER_0.records@;
                let kp = rr[254].key;
                let lower = inner_lower(rr);
                let upper = inner_upper(rr);
                &&& final(buffer)@.len() == n + 1
                &&& forall|x: int| 0 <= x < n && x != p ==> #[trigger] final(buffer)@[x] == old(buffer)@[x]
                &&& final(buffer)@[p] is INNER
                &&& final(buffer)@[n as int] is INNER
                &&& final(buffer)@[n as int]->INNER_0.id == PageID(n as u32)
                &&& final(buffer)@[p]->INNER_0.id == old(buffer)@[p]->INNER_0.id
                &&& if new_child.0 < kp {
                    &&& final(buffer)@[p]->INNER_0.records@ == with_child(
                        lower,
                        child_slot(lower, new_child.0, 0),
                        new_child.0,
                        new_child.1,
                    )
                    &&& final(buffer)@[n as int]->INNER_0.records@ == upper
                } else {
                    &&& final(buffer)@[p]->INNER_0.records@ == lower
                    &&& final(buffer)@[n as int]->INNER_0.records@ == with_child(
                        upper,
                        child_slot(upper, new_child.0, 0),
                        new_child.0,
                        new_child.1,
                    )
                }
                &&& r == (kp, PageID(n as u32))
            }),
    {
        let new_id = PageID(buffer.len() as u32);
        let (key, value) = new_child;
        let p = page_id.0 as usize;
        let mut taken = Page::default();
        core::mem::swap(&mut buffer[p], &mut taken);
        let mut old_page = match taken {
            Page::INNER(ip) => ip,
            Page::LEAF(_) => InnerPage { records: Vec::new(), id: page_id },
        };
        let ghost rr = old_page.records@;
        let m: usize = 254;
        let key_to_promote = old_page.records[m].key;
        let upper = old_page.records.split_off(m + 1);
        let mut new_inner = InnerPage { records: upper, id: new_id };
        proof {
            assert(old_page.records@ == inner_lower(rr));
            assert(new_inner.records@ == inner_upper(rr));
        }
        if key < key_to_promote {
            let index = self.optimized_bsearch_inner(&old_page, key);
            proof {
                lemma_child_slot(old_page.records@, key, 0);
            }
            insert_child(&mut old_page, index, key, value);
        } else {
            proof {
                assert forall|i: int, j: int|
                    0 <= i < j < new_inner.records@.len() - 1 implies (#[trigger] new_inner.records@[i]).key
                    <= (#[trigger] new_inner.records@[j]).key by {
                    assert(new_inner.records@[i] == rr[i + 255]);
                    assert(new_inner.records@[j] == rr[j + 255]);
                }
            }
            let index = self.optimized_bsearch_inner(&new_inner, key);
            proof {
                lemma_child_slot(new_inner.records@, key, 0);
            }
            insert_child(&mut new_inner, index, key, value);
        }
        buffer.set(p, Page::INNER(old_page));
        buffer.push(Page::INNER(new_inner));
        (key_to_promote, new_id)
    }
}

pub(crate) proof fn lemma_leaf_find_at(l: LeafPage, i: int, key: i32)
    requires
        strictly_sorted(leaf_keys(&l)),
        0 <= i < l.records@.len(),
        l.records@[i].key == key,
    ensures
        leaf_find(&l, key) == Some(l.records@[i].value),
{
    let keys = leaf_keys(&l);
    lemma_leaf_pos(keys, key, 0);
    let pos = leaf_pos(keys, key, 0);
    if pos < i {
        assert(keys[pos] < keys[i]);
    } else if pos > i {
        assert(keys[i] < key);
    }
}

/// [`child_slot`] is the slot before which every separator is at most
/// `key` and whose own separator (unless it is the last slot) exceeds it.
proof fn lemma_child_slot_is(r: Seq<BTreeRecord<PageID>>, key: i32, j: int)
    requires
        r.len() >= 1,
        0 <= j <= r.len() - 1,
        forall|t: int| 0 <= t < j ==> (#[trigger] r[t]).key <= key,
        j < r.len() - 1 ==> r[j].key > key,
    ensures
        child_slot(r, key, 0) == j,
{
    lemma_child_slot(r, key, 0);
    let s = child_slot(r, key, 0);
    if s < j {
        assert(r[s].key <= key);
    } else if s > j {
        assert(r[j].key <= key);
    }
}

/// Routing is unchanged by changes to pages above the start page.
proof fn lemma_route_frame(b1: Seq<Page>, b2: Seq<Page>, g: TreeGhost, e: int, p: int, key: i32)
    requires
        ok_except(b1, g, e),
        0 <= p < b1.len(),
        b2.len() >= b1.len(),
        e == -1 || g.level[e] > g.level[p],
        forall|x: int| 0 <= x < b1.len() && x != e ==> #[trigger] b2[x] == b1[x],
    ensures
        route(b2, p, key, g.level[p]) == route(b1, p, key, g.level[p]),
    decreases g.level[p],
{
    assert(page_ok(b1, g, p));
    assert(b2[p] == b1[p]);
    if b1[p] is INNER {
        let recs = b1[p]->INNER_0.records@;
        lemma_child_slot(recs, key, 0);
        let c = recs[child_slot(recs, key, 0)].value.0 as int;
        assert(g.level[c] + 1 == g.level[p]);
        lemma_route_frame(b1, b2, g, e, c, key);
    }
}

/// A page keeps its consistency when neither it nor the ghost data of its
/// children changed.
proof fn lemma_page_ok_kept(b1: Seq<Page>, g1: TreeGhost, b2: Seq<Page>, g2: TreeGhost, x: int)
    requires
        page_ok(b1, g1, x),
        0 <= x < b1.len() <= b2.len(),
        b2[x] == b1[x],
        g2.level[x] == g1.level[x],
        g2.lo[x] == g1.lo[x],
        g2.hi[x] == g1.hi[x],
        b1[x] is INNER ==> forall|i: int|
            0 <= i < b1[x]->INNER_0.records@.len() ==> {
                let c = (#[trigger] b1[x]->INNER_0.records@[i].value).0 as int;
                &&& g2.level[c] == g1.level[c]
                &&& g2.lo[c] == g1.lo[c]
                &&& g2.hi[c] == g1.hi[c]
                &&& g2.parent[c] == g1.parent[c]
            },
    ensures
        page_ok(b2, g2, x),
{
    if b1[x] is INNER {
        let r = b1[x]->INNER_0.records@;
        assert forall|i: int| 0 <= i < r.len() implies {
            let c = (#[trigger] r[i].value).0 as int;
            &&& 0 <= c < b2.len()
            &&& g2.level[c] + 1 == g2.level[x]
            &&& g2.parent[c] == x
            &&& g2.lo[c] == slot_lo(r, g2.lo[x], i)
            &&& g2.hi[c] == slot_hi(r, g2.hi[x], i)
        } by {
            assert(r[i] == b1[x]->INNER_0.records@[i]);
        }
    }
}

/// Routing `key` from page `p` within `n` levels reaches a leaf that maps
/// `key` to `rid`.
pub open spec fn finds(b: Seq<Page>, p: int, key: i32, rid: RecordID, n: nat) -> bool {
    let l = route(b, p, key, n);
    &&& 0 <= l < b.len()
    &&& b[l] is LEAF
    &&& leaf_find(&b[l]->LEAF_0, key) == Some(rid)
}

/// What an insertion of `(key, rid)` below page `p` did, from `(b0, g0)`
/// to `(b1, g1)`: pages were only appended, levels kept, pages at `p`'s
/// level or above other than `p` untouched; and either the subtree of `p`
/// now maps `key` to `rid` with everything consistent, or `p` was split at
/// `sep` into itself and the new page `q`, one of which maps `key` to
/// `rid`, with everything consistent but `p`'s parent.
pub open spec fn insert_post(
    b0: Seq<Page>,
    g0: TreeGhost,
    b1: Seq<Page>,
    g1: TreeGhost,
    p: int,
    key: i32,
    rid: RecordID,
    r: Option<(i32, PageID)>,
) -> bool {
    let n = b0.len();
    &&& n <= b1.len() <= n + g0.level[p] + 1
    &&& forall|x: int| 0 <= x < n ==> #[trigger] g1.level[x] == g0.level[x]
    &&& forall|x: int| n <= x < b1.len() ==> #[trigger] g1.level[x] <= g0.level[p]
    &&& forall|x: int|
        0 <= x < n && x != p && g0.level[x] >= g0.level[p] ==> #[trigger] b1[x] == b0[x] && g1.lo[x] == g0.lo[x]
            && g1.hi[x] == g0.hi[x] && g1.parent[x] == g0.parent[x]
    &&& g1.lo[p] == g0.lo[p]
    &&& g1.parent[p] == g0.parent[p]
    &&& match r {
        None => {
            &&& ok_except(b1, g1, -1)
            &&& g1.hi[p] == g0.hi[p]
            &&& finds(b1, p, key, rid, g0.level[p])
        },
        Some(sq) => {
            let sep = sq.0;
            let q = sq.1.0 as int;
            &&& n <= q < b1.len()
            &&& ok_except(b1, g1, g0.parent[p])
            &&& g0.lo[p] < sep < g0.hi[p]
            &&& g1.hi[p] == sep
            &&& g1.lo[q] == sep
            &&& g1.hi[q] == g0.hi[p]
            &&& g1.level[q] == g0.level[p]
            &&& g1.parent[q] == g0.parent[p]
            &&& key < sep ==> finds(b1, p, key, rid, g0.level[p])
            &&& key >= sep ==> finds(b1, q, key, rid, g0.level[p])
        },
    }
}

/// The two halves of a full leaf split around a new key are sorted, hold
/// the old keys and the new one, and divide at the upper half's first key.
proof fn lemma_leaf_split(r: Seq<BTreeRecord<RecordID>>, key: i32, rid: RecordID, lo: int, hi: int)
    requires
        r.len() == LEAF_CAPACITY,
        strictly_sorted(r.map_values(|x: BTreeRecord<RecordID>| x.key)),
        forall|i: int| 0 <= i < r.len() ==> lo <= (#[trigger] r[i]).key < hi,
        lo <= key < hi,
        ({
            let i = leaf_pos(r.map_values(|x: BTreeRecord<RecordID>| x.key), key, 0);
            i >= r.len() || r[i].key != key
        }),
    ensures
        ({
            let i = leaf_pos(r.map_values(|x: BTreeRecord<RecordID>| x.key), key, 0);
            let rec = BTreeRecord { key, value: rid };
            let lower = leaf_lower(r, i, rec);
            let upper = leaf_upper(r, i, rec);
            let sep = upper[0].key;
            &&& upper.len() >= 1
            &&& lower.len() <= LEAF_CAPACITY
            &&& upper.len() <= LEAF_CAPACITY
            &&& strictly_sorted(lower.map_values(|x: BTreeRecord<RecordID>| x.key))
            &&& strictly_sorted(upper.map_values(|x: BTreeRecord<RecordID>| x.key))
            &&& forall|j: int| 0 <= j < lower.len() ==> lo <= (#[trigger] lower[j]).key < sep
            &&& forall|j: int| 0 <= j < upper.len() ==> sep <= (#[trigger] upper[j]).key < hi
            &&& lo < sep < hi
            &&& key < sep ==> i < 168 && lower[i] == rec
            &&& key >= sep ==> i >= 168 && upper[i - 168] == rec
        }),
{
    let keys = r.map_values(|x: BTreeRecord<RecordID>| x.key);
    lemma_leaf_pos(keys, key, 0);
    let i = leaf_pos(keys, key, 0);
    let rec = BTreeRecord { key, value: rid };
    let lower = leaf_lower(r, i, rec);
    let upper = leaf_upper(r, i, rec);
    let lk = lower.map_values(|x: BTreeRecord<RecordID>| x.key);
    let uk = upper.map_values(|x: BTreeRecord<RecordID>| x.key);
    if i < 168 {
        assert(keys[i] > key);
        assert(upper[0] == r[168]);
        assert forall|a: int, b: int| 0 <= a < b < lk.len() implies lk[a] < lk[b] by {
            if b < i {
                assert(lk[a] == keys[a] && lk[b] == keys[b]);
            } else if b == i {
                assert(lk[b] == key);
                assert(lk[a] == keys[a]);
            } else if a < i {
                assert(lk[a] == keys[a] && lk[b] == keys[b - 1]);
            } else if a == i {
                assert(lk[a] == key && lk[b] == keys[b - 1]);
                assert(keys[i] <= keys[b - 1]);
            } else {
                assert(lk[a] == keys[a - 1] && lk[b] == keys[b - 1]);
            }
        }
        assert forall|a: int, b: int| 0 <= a < b < uk.len() implies uk[a] < uk[b] by {
            assert(uk[a] == keys[a + 168] && uk[b] == keys[b + 168]);
        }
        assert forall|j: int| 0 <= j < lower.len() implies lo <= (#[trigger] lower[j]).key < upper[0].key by {
            if j < i {
                assert(lower[j] == r[j]);
                assert(keys[j] < keys[168]);
            } else if j == i {
                assert(keys[i] <= keys[168]);
            } else {
                assert(lower[j] == r[j - 1]);
                assert(keys[j - 1] < keys[168]);
            }
        }
        assert forall|j: int| 0 <= j < upper.len() implies upper[0].key <= (#[trigger] upper[j]).key < hi by {
            assert(upper[j] == r[j + 168]);
            if j > 0 {
                assert(keys[168] < keys[j + 168]);
            }
        }
        assert(lower[0].key < upper[0].key);
    } else {
        assert forall|a: int, b: int| 0 <= a < b < lk.len() implies lk[a] < lk[b] by {
            assert(lk[a] == keys[a] && lk[b] == keys[b]);
        }
        assert forall|a: int, b: int| 0 <= a < b < uk.len() implies uk[a] < uk[b] by {
            let ii = i - 168;
            if b < ii {
                assert(uk[a] == keys[a + 168] && uk[b] == keys[b + 168]);
            } else if b == ii {
                assert(uk[a] == keys[a + 168]);
            } else if a < ii {
                assert(uk[a] == keys[a + 168] && uk[b] == keys[b + 167]);
            } else if a == ii {
                assert(uk[b] == keys[b + 167]);
                assert(b + 167 >= i);
            } else {
                assert(uk[a] == keys[a + 167] && uk[b] == keys[b + 167]);
            }
        }
        let sep = upper[0].key;
        assert(sep == if i == 168 { key } else { keys[168] });
        assert forall|j: int| 0 <= j < lower.len() implies lo <= (#[trigger] lower[j]).key < sep by {
            assert(lower[j] == r[j]);
            assert(keys[j] < key);
            if i > 168 {
                assert(keys[j] < keys[168]);
            }
        }
        assert forall|j: int| 0 <= j < upper.len() implies sep <= (#[trigger] upper[j]).key < hi by {
            if j > 0 {
                assert(uk[0] < uk[j]);
            }
        }
        assert(lower[0].key < sep);
        if key < sep {
            assert(i > 168);
            assert(keys[168] < key);
        }
    }
}

impl UniqueBPlusTree {
    /// Inserts `(key, rid)` below page `page_id`: into the leaf the key
    /// routes to, splitting full pages on the way back up. Returns the
    /// separator and the new page when `page_id` itself was split.
    #[verifier::rlimit(100)]
    fn recursive_insert(&mut self, page_id: PageID, buffer: &mut Vec<Page>, key: i32, rid: RecordID) -> (r:
        Option<(i32, PageID)>)
        requires
            ok_except(old(buffer)@, old(self).ghost(), -1),
            (page_id.0 as int) < old(buffer)@.len(),
            old(self).ghost().lo[page_id.0 as int] <= key < old(self).ghost().hi[page_id.0 as int],
            old(buffer)@.len() + old(self).ghost().level[page_id.0 as int] + 1 <= u32::MAX,
            leaves_ok(old(buffer)@, old(self).ghost()),
        ensures
            insert_post(
                old(buffer)@,
                old(self).ghost(),
                final(buffer)@,
                final(self).ghost(),
                page_id.0 as int,
                key,
                rid,
                r,
            ),
            final(self).root_page == old(self).root_page,
            changed_cover(old(buffer)@, old(self).ghost(), final(buffer)@, key),
            keeps_others(old(buffer)@, old(self).ghost(), final(buffer)@, page_id.0 as int, key, r),
            leaves_ok(final(buffer)@, final(self).ghost()),
            look(old(buffer)@, page_id.0 as int, key, old(self).ghost().level[page_id.0 as int]) is Some ==> r is None
                && final(buffer)@.len() == old(buffer)@.len(),
        decreases old(self).ghost().level[page_id.0 as int],
    {
        let ghost b0 = buffer@;
        let ghost g0 = self.ghost();
        let ghost p = page_id.0 as int;
        let ghost n = b0.len();
        proof {
            assert(page_ok(b0, g0, p));
        }
        let pi = page_id.0 as usize;
        let is_leaf = match &buffer[pi] {
            Page::LEAF(_) => true,
            Page::INNER(_) => false,
        };
        if is_leaf {
            return self.insert_into_leaf(page_id, buffer, key, rid);
        } else {
            let (index, child) = match &buffer[pi] {
                Page::INNER(ip) => {
                    let i = self.optimized_bsearch_inner(ip, key);
                    proof {
                        lemma_child_slot(ip.records@, key, 0);
                    }
                    (i, ip.records[i].value)
                },
                Page::LEAF(_) => (0, page_id),
            };
            let ghost recs = b0[p]->INNER_0.records@;
            let ghost c = child.0 as int;
            proof {
                assert(recs[index as int].value == child);
                assert(g0.level[c] + 1 == g0.level[p]);
                assert(route(b0, p, key, g0.level[p]) == route(b0, c, key, g0.level[c]));
                assert(look(b0, p, key, g0.level[p]) == look(b0, c, key, g0.level[c]));
                assert(g0.lo[c] <= key) by {
                    if index > 0 {
                        assert(recs[index - 1].key <= key);
                    }
                }
            }
            let result = self.recursive_insert(child, buffer, key, rid);
            let ghost b1 = buffer@;
            let ghost g1 = self.ghost();
            proof {
                assert(b1[p] == b0[p]);
            }
            match result {
                None => {
                    proof {
                        lemma_child_done_post(b0, g0, b1, g1, p, index as int, key, rid);
                        lemma_child_done_frame(b0, g0, b1, p, index as int, key);
                    }
                    None
                },
                Some((key_to_add, new_child_id)) => {
                    let full = match &buffer[pi] {
                        Page::INNER(ip) => ip.records.len() == INNER_CAPACITY,
                        Page::LEAF(_) => false,
                    };
                    if full {
                        let (kp, q2) = self.split_inner(buffer, page_id, (key_to_add, new_child_id));
                        let ghost q2i = q2.0 as int;
                        let ghost b2 = buffer@;
                        let ghost moved = b2[q2i]->INNER_0.records@;
                        self.ghost_state = Ghost(
                            TreeGhost {
                                level: g1.level.insert(q2i, g0.level[p]),
                                lo: g1.lo.insert(q2i, kp as int),
                                hi: g1.hi.insert(p, kp as int).insert(q2i, g0.hi[p]),
                                parent: Map::new(
                                    |x: int| true,
                                    |x: int|
                                        if x == q2i {
                                            g0.parent[p]
                                        } else if exists|j: int| 0 <= j < moved.len() && moved[j].value.0 == x {
                                            q2i
                                        } else {
                                            g1.parent[x]
                                        },
                                ),
                            },
                        );
                        proof {
                            lemma_split_inner_post(
                                b0,
                                g0,
                                b1,
                                g1,
                                b2,
                                self.ghost(),
                                p,
                                index as int,
                                key,
                                rid,
                                key_to_add,
                                new_child_id,
                                kp,
                                q2,
                            );
                            lemma_split_inner_leaves(
                                b0,
                                g0,
                                b1,
                                g1,
                                b2,
                                self.ghost(),
                                p,
                                index as int,
                                key,
                                rid,
                                key_to_add,
                                new_child_id,
                                kp,
                                q2,
                            );
                            lemma_split_inner_frame(
                                b0,
                                g0,
                                b1,
                                g1,
                                b2,
                                self.ghost(),
                                p,
                                index as int,
                                key,
                                rid,
                                key_to_add,
                                new_child_id,
                                kp,
                                q2,
                            );
                        }
                        Some((kp, q2))
                    } else {
                        let mut taken = Page::default();
                        core::mem::swap(&mut buffer[pi], &mut taken);
                        let mut page = match taken {
                            Page::INNER(ip) => ip,
                            Page::LEAF(_) => InnerPage { records: Vec::new(), id: page_id },
                        };
                        proof {
                            assert(page.records@ == recs);
                            lemma_child_slot_is(recs, key_to_add, index as int);
                        }
                        let index2 = self.optimized_bsearch_inner(&page, key_to_add);
                        insert_child(&mut page, index2, key_to_add, new_child_id);
                        buffer.set(pi, Page::INNER(page));
                        proof {
                            lemma_insert_child_post(
                                b0,
                                g0,
                                b1,
                                g1,
                                buffer@,
                                p,
                                index as int,
                                key,
                                rid,
                                key_to_add,
                                new_child_id,
                            );
                            lemma_insert_child_leaves(
                                b0,
                                g0,
                                b1,
                                g1,
                                buffer@,
                                p,
                                index as int,
                                key,
                                rid,
                                key_to_add,
                                new_child_id,
                            );
                            lemma_insert_child_frame(
                                b0,
                                g0,
                                b1,
                                g1,
                                buffer@,
                                p,
                                index as int,
                                key,
                                rid,
                                key_to_add,
                                new_child_id,
                            );
                        }
                        None
                    }
                },
            }
        }
    }
}

/// Adding `(sep, q)` after the child `c` in slot `i` of an inner page keeps
/// the page consistent, once `c` covers the keys below `sep` and `q` those
/// from `sep` on.
proof fn lemma_inner_insert(
    r: Seq<BTreeRecord<PageID>>,
    i: int,
    sep: i32,
    q: PageID,
    g0: TreeGhost,
    g1: TreeGhost,
    p: int,
    c: int,
    qi: int,
    len: int,
)
    requires
        1 <= r.len() < INNER_CAPACITY,
        0 <= i < r.len(),
        c == r[i].value.0 as int,
        qi == q.0 as int,
        forall|a: int, b: int| 0 <= a < b < r.len() - 1 ==> (#[trigger] r[a]).key < (#[trigger] r[b]).key,
        forall|a: int| 0 <= a < r.len() - 1 ==> g0.lo[p] < (#[trigger] r[a]).key < g0.hi[p],
        forall|a: int, b: int| 0 <= a < b < r.len() ==> (#[trigger] r[a]).value != (#[trigger] r[b]).value,
        forall|a: int|
            0 <= a < r.len() ==> {
                let x = (#[trigger] r[a].value).0 as int;
                &&& 0 <= x < len
                &&& x != qi
                &&& g0.level[x] + 1 == g0.level[p]
                &&& g0.parent[x] == p
                &&& g0.lo[x] == slot_lo(r, g0.lo[p], a)
                &&& g0.hi[x] == slot_hi(r, g0.hi[p], a)
                &&& x != c ==> g1.level[x] == g0.level[x] && g1.lo[x] == g0.lo[x] && g1.hi[x] == g0.hi[x]
                    && g1.parent[x] == g0.parent[x]
            },
        0 <= qi < len,
        g0.level[p] >= 1,
        g1.level[p] == g0.level[p],
        g1.lo[p] == g0.lo[p],
        g1.hi[p] == g0.hi[p],
        g1.level[c] == g0.level[c],
        g1.lo[c] == g0.lo[c],
        g1.parent[c] == g0.parent[c],
        g1.hi[c] == sep,
        g0.lo[c] < sep < g0.hi[c],
        g1.lo[qi] == sep,
        g1.hi[qi] == g0.hi[c],
        g1.level[qi] == g0.level[c],
        g1.parent[qi] == p,
    ensures
        ({
            let r2 = with_child(r, i, sep, q);
            &&& 1 <= r2.len() <= INNER_CAPACITY
            &&& forall|a: int, b: int| 0 <= a < b < r2.len() - 1 ==> (#[trigger] r2[a]).key < (#[trigger] r2[b]).key
            &&& forall|a: int| 0 <= a < r2.len() - 1 ==> g1.lo[p] < (#[trigger] r2[a]).key < g1.hi[p]
            &&& forall|a: int, b: int| 0 <= a < b < r2.len() ==> (#[trigger] r2[a]).value != (#[trigger] r2[b]).value
            &&& forall|a: int|
                0 <= a < r2.len() ==> {
                    let x = (#[trigger] r2[a].value).0 as int;
                    &&& 0 <= x < len
                    &&& g1.level[x] + 1 == g1.level[p]
                    &&& g1.parent[x] == p
                    &&& g1.lo[x] == slot_lo(r2, g1.lo[p], a)
                    &&& g1.hi[x] == slot_hi(r2, g1.hi[p], a)
                }
        }),
{
    let r2 = with_child(r, i, sep, q);
    assert(r2.len() == r.len() + 1);
    assert forall|a: int| 0 <= a < r2.len() implies #[trigger] r2[a] == if a < i {
        r[a]
    } else if a == i {
        BTreeRecord { key: sep, value: r[i].value }
    } else if a == i + 1 {
        BTreeRecord { key: r[i].key, value: q }
    } else {
        r[a - 1]
    } by {}
    assert(i > 0 ==> r[i - 1].key == g0.lo[c]);
    assert(i < r.len() - 1 ==> r[i].key == g0.hi[c]);
    assert forall|a: int, b: int| 0 <= a < b < r2.len() - 1 implies (#[trigger] r2[a]).key < (#[trigger] r2[b]).key by {
        let ka = if a < i { r[a].key } else if a == i { sep } else if a == i + 1 { r[i].key } else { r[a - 1].key };
        let kb = if b < i { r[b].key } else if b == i { sep } else if b == i + 1 { r[i].key } else { r[b - 1].key };
        if a < i && b == i {
            assert(r[a].key <= r[i - 1].key);
        } else if a < i && b > i {
            assert(r[a].key <= r[i - 1].key);
            assert(g0.lo[c] < sep);
        }
        if a == i && b > i + 1 {
            assert(r[i].key < r[b - 1].key);
        }
    }
    assert forall|a: int| 0 <= a < r2.len() - 1 implies g1.lo[p] < (#[trigger] r2[a]).key < g1.hi[p] by {
        if a == i {
            if i > 0 {
                assert(g0.lo[p] < r[i - 1].key);
            }
            if i < r.len() - 1 {
                assert(r[i].key < g0.hi[p]);
            }
        }
    }
    assert forall|a: int, b: int| 0 <= a < b < r2.len() implies (#[trigger] r2[a]).value != (#[trigger] r2[b]).value by {
        if a != i + 1 && b != i + 1 {
            let aa = if a <= i { a } else { a - 1 };
            let bb = if b <= i { b } else { b - 1 };
            assert(r2[a].value == r[aa].value);
            assert(r2[b].value == r[bb].value);
        } else if a == i + 1 {
            let bb = b - 1;
            assert(r[bb].value.0 as int != qi);
        } else {
            let aa = if a <= i { a } else { a - 1 };
            assert(r[aa].value.0 as int != qi);
        }
    }
    assert forall|a: int| 0 <= a < r2.len() implies {
        let x = (#[trigger] r2[a].value).0 as int;
        &&& 0 <= x < len
        &&& g1.level[x] + 1 == g1.level[p]
        &&& g1.parent[x] == p
        &&& g1.lo[x] == slot_lo(r2, g1.lo[p], a)
        &&& g1.hi[x] == slot_hi(r2, g1.hi[p], a)
    } by {
        if a < i {
            let x = r[a].value.0 as int;
            assert(x != c);
        } else if a > i + 1 {
            let x = r[a - 1].value.0 as int;
            assert(x != c);
            assert(slot_lo(r2, g1.lo[p], a) == slot_lo(r, g0.lo[p], a - 1));
        }
    }
}

/// The parents after an inner split: children in `moved` now have the new
/// page `q2i` as parent, the others keep theirs.
proof fn lemma_split_parent_facts(
    r: Seq<BTreeRecord<PageID>>,
    g1: TreeGhost,
    g2: TreeGhost,
    p: int,
    qi: int,
    q2i: int,
    n: int,
    moved: Seq<BTreeRecord<PageID>>,
    m: int,
)
    requires
        0 <= m <= r.len(),
        forall|a: int, b: int| 0 <= a < b < r.len() ==> (#[trigger] r[a]).value != (#[trigger] r[b]).value,
        forall|a: int| 0 <= a < r.len() ==> 0 <= (#[trigger] r[a].value).0 < n,
        n <= qi,
        q2i != qi,
        n <= q2i,
        forall|j: int|
            0 <= j < moved.len() ==> (exists|a: int| m <= a < r.len() && (#[trigger] moved[j]).value == r[a].value)
                || moved[j].value.0 == qi,
        forall|x: int|
            #[trigger] g2.parent[x] == if x == q2i {
                g2.parent[q2i]
            } else if exists|j: int| 0 <= j < moved.len() && moved[j].value.0 == x {
                q2i
            } else {
                g1.parent[x]
            },
    ensures
        forall|a: int| 0 <= a < m ==> #[trigger] g2.parent[r[a].value.0 as int] == g1.parent[r[a].value.0 as int],
        (forall|j: int| 0 <= j < moved.len() ==> (#[trigger] moved[j].value).0 != qi) ==> g2.parent[qi] == g1.parent[qi],
        forall|j: int| 0 <= j < moved.len() ==> #[trigger] g2.parent[moved[j].value.0 as int] == q2i,
{
    assert forall|a: int| 0 <= a < m implies #[trigger] g2.parent[r[a].value.0 as int] == g1.parent[r[a].value.0 as int] by {
        let x = r[a].value.0 as int;
        if exists|j: int| 0 <= j < moved.len() && moved[j].value.0 == x {
            let j = choose|j: int| 0 <= j < moved.len() && moved[j].value.0 == x;
            if moved[j].value.0 == qi {
                assert(x < n);
            } else {
                let b = choose|b: int| m <= b < r.len() && moved[j].value == r[b].value;
                assert(r[a].value == r[b].value);
            }
        }
    }
    assert forall|j: int| 0 <= j < moved.len() implies #[trigger] g2.parent[moved[j].value.0 as int] == q2i by {
        let x = moved[j].value.0 as int;
        if x == q2i {
            if moved[j].value.0 == qi {
            } else {
                let b = choose|b: int| m <= b < r.len() && moved[j].value == r[b].value;
                assert(r[b].value.0 < n);
            }
        }
    }
}

/// The new right page of an inner split that took no new child is
/// consistent.
proof fn lemma_upper_ok(r: Seq<BTreeRecord<PageID>>, g0: TreeGhost, g2: TreeGhost, p: int, q2i: int, b2: Seq<Page>)
    requires
        r.len() == INNER_CAPACITY,
        page_ok_records(r, g0, p, b2.len() as int),
        0 <= q2i < b2.len(),
        b2[q2i] is INNER,
        b2[q2i]->INNER_0.records@ == inner_upper(r),
        g2.level[q2i] == g0.level[p],
        g0.level[p] >= 1,
        g2.lo[q2i] == r[254].key,
        g2.hi[q2i] == g0.hi[p],
        forall|a: int|
            255 <= a < r.len() ==> {
                let x = (#[trigger] r[a].value).0 as int;
                &&& g2.parent[x] == q2i
                &&& g2.level[x] == g0.level[x]
                &&& g2.lo[x] == g0.lo[x]
                &&& g2.hi[x] == g0.hi[x]
            },
    ensures
        page_ok(b2, g2, q2i),
{
    let u = inner_upper(r);
    assert forall|a: int| 0 <= a < u.len() implies #[trigger] u[a] == r[a + 255] by {}
    assert forall|a: int, b: int| 0 <= a < b < u.len() - 1 implies (#[trigger] u[a]).key < (#[trigger] u[b]).key by {
        assert(r[a + 255].key < r[b + 255].key);
    }
    assert forall|a: int| 0 <= a < u.len() - 1 implies g2.lo[q2i] < (#[trigger] u[a]).key < g2.hi[q2i] by {
        assert(r[254].key < r[a + 255].key);
        assert(r[a + 255].key < g0.hi[p]);
    }
    assert forall|a: int, b: int| 0 <= a < b < u.len() implies (#[trigger] u[a]).value != (#[trigger] u[b]).value by {
        assert(r[a + 255].value != r[b + 255].value);
    }
    assert forall|a: int| 0 <= a < u.len() implies {
        let x = (#[trigger] u[a].value).0 as int;
        &&& 0 <= x < b2.len()
        &&& g2.level[x] + 1 == g2.level[q2i]
        &&& g2.parent[x] == q2i
        &&& g2.lo[x] == slot_lo(u, g2.lo[q2i], a)
        &&& g2.hi[x] == slot_hi(u, g2.hi[q2i], a)
    } by {
        let x = r[a + 255].value.0 as int;
        assert(u[a] == r[a + 255]);
        assert(g0.lo[x] == slot_lo(r, g0.lo[p], a + 255));
        assert(g0.hi[x] == slot_hi(r, g0.hi[p], a + 255));
    }
}

/// The left page of an inner split that took no new child is consistent.
proof fn lemma_lower_ok(r: Seq<BTreeRecord<PageID>>, g0: TreeGhost, g2: TreeGhost, p: int, b2: Seq<Page>)
    requires
        r.len() == INNER_CAPACITY,
        page_ok_records(r, g0, p, b2.len() as int),
        0 <= p < b2.len(),
        b2[p] is INNER,
        b2[p]->INNER_0.records@ == inner_lower(r),
        g2.level[p] == g0.level[p],
        g0.level[p] >= 1,
        g2.lo[p] == g0.lo[p],
        g2.hi[p] == r[254].key,
        forall|a: int|
            0 <= a < 255 ==> {
                let x = (#[trigger] r[a].value).0 as int;
                &&& g2.parent[x] == p
                &&& g2.level[x] == g0.level[x]
                &&& g2.lo[x] == g0.lo[x]
                &&& g2.hi[x] == g0.hi[x]
            },
    ensures
        page_ok(b2, g2, p),
{
    let l = inner_lower(r);
    assert forall|a: int| 0 <= a < l.len() implies #[trigger] l[a] == r[a] by {}
    assert forall|a: int| 0 <= a < l.len() - 1 implies g2.lo[p] < (#[trigger] l[a]).key < g2.hi[p] by {
        assert(r[a].key < r[254].key);
    }
    assert forall|a: int| 0 <= a < l.len() implies {
        let x = (#[trigger] l[a].value).0 as int;
        &&& 0 <= x < b2.len()
        &&& g2.level[x] + 1 == g2.level[p]
        &&& g2.parent[x] == p
        &&& g2.lo[x] == slot_lo(l, g2.lo[p], a)
        &&& g2.hi[x] == slot_hi(l, g2.hi[p], a)
    } by {
        let x = r[a].value.0 as int;
        assert(l[a] == r[a]);
        assert(g0.lo[x] == slot_lo(r, g0.lo[p], a));
        assert(g0.hi[x] == slot_hi(r, g0.hi[p], a));
    }
}

/// The record facts of a consistent inner page `p` with records `r` in a
/// vector of `len` pages.
pub open spec fn page_ok_records(r: Seq<BTreeRecord<PageID>>, g: TreeGhost, p: int, len: int) -> bool {
    &&& 1 <= r.len() <= INNER_CAPACITY
    &&& forall|i: int, j: int| 0 <= i < j < r.len() - 1 ==> (#[trigger] r[i]).key < (#[trigger] r[j]).key
    &&& forall|i: int| 0 <= i < r.len() - 1 ==> g.lo[p] < (#[trigger] r[i]).key < g.hi[p]
    &&& forall|i: int, j: int| 0 <= i < j < r.len() ==> (#[trigger] r[i]).value != (#[trigger] r[j]).value
    &&& forall|i: int|
        0 <= i < r.len() ==> {
            let c = (#[trigger] r[i].value).0 as int;
            &&& 0 <= c < len
            &&& g.level[c] + 1 == g.level[p]
            &&& g.parent[c] == p
            &&& g.lo[c] == slot_lo(r, g.lo[p], i)
            &&& g.hi[c] == slot_hi(r, g.hi[p], i)
        }
}

impl UniqueBPlusTree {
    /// Inserts `(key, rid)` into the leaf `page_id`, splitting it when it is
    /// full and the key is new.
    fn insert_into_leaf(&mut self, page_id: PageID, buffer: &mut Vec<Page>, key: i32, rid: RecordID) -> (r:
        Option<(i32, PageID)>)
        requires
            ok_except(old(buffer)@, old(self).ghost(), -1),
            (page_id.0 as int) < old(buffer)@.len(),
            old(buffer)@[page_id.0 as int] is LEAF,
            old(self).ghost().lo[page_id.0 as int] <= key < old(self).ghost().hi[page_id.0 as int],
            old(buffer)@.len() + old(self).ghost().level[page_id.0 as int] + 1 <= u32::MAX,
            leaves_ok(old(buffer)@, old(self).ghost()),
        ensures
            insert_post(
                old(buffer)@,
                old(self).ghost(),
                final(buffer)@,
                final(self).ghost(),
                page_id.0 as int,
                key,
                rid,
                r,
            ),
            final(self).root_page == old(self).root_page,
            changed_cover(old(buffer)@, old(self).ghost(), final(buffer)@, key),
            keeps_others(old(buffer)@, old(self).ghost(), final(buffer)@, page_id.0 as int, key, r),
            leaves_ok(final(buffer)@, final(self).ghost()),
            leaf_find(&old(buffer)@[page_id.0 as int]->LEAF_0, key) is Some ==> r is None && final(buffer)@.len()
                == old(buffer)@.len(),
    {
        let ghost b0 = buffer@;
        let ghost g0 = self.ghost();
        let ghost p = page_id.0 as int;
        let ghost n = b0.len();
        proof {
            assert(page_ok(b0, g0, p));
        }
        let pi = page_id.0 as usize;
        let (index, found, full) = match &buffer[pi] {
            Page::LEAF(l) => {
                let (i, f) = self.optimized_bsearch_leaf(l, key);
                (i, f, l.records.len() == LEAF_CAPACITY)
            },
            Page::INNER(_) => (0, false, false),
        };
        let ghost old_leaf = b0[p]->LEAF_0;
        if full && !found {
            proof {
                lemma_leaf_pos(leaf_keys(&old_leaf), key, 0);
                assert(leaf_keys(&old_leaf) == old_leaf.records@.map_values(|x: BTreeRecord<RecordID>| x.key));
                lemma_leaf_split(old_leaf.records@, key, rid, g0.lo[p], g0.hi[p]);
            }
            let (sep, q) = self.split_leaf(buffer, page_id, key, rid, index);
            let ghost qi = q.0 as int;
            self.ghost_state = Ghost(
                TreeGhost {
                    level: g0.level.insert(qi, 0),
                    lo: g0.lo.insert(qi, sep as int),
                    hi: g0.hi.insert(p, sep as int).insert(qi, g0.hi[p]),
                    parent: g0.parent.insert(qi, g0.parent[p]),
                },
            );
            proof {
                let b1 = buffer@;
                let g1 = self.ghost();
                let rec = BTreeRecord { key, value: rid };
                let lower = leaf_lower(old_leaf.records@, index as int, rec);
                let upper = leaf_upper(old_leaf.records@, index as int, rec);
                assert(leaf_keys(&b1[p]->LEAF_0) == lower.map_values(|x: BTreeRecord<RecordID>| x.key));
                assert(leaf_keys(&b1[qi]->LEAF_0) == upper.map_values(|x: BTreeRecord<RecordID>| x.key));
                assert(page_ok(b1, g1, p));
                assert(page_ok(b1, g1, qi));
                assert forall|x: int| 0 <= x < b1.len() && x != g0.parent[p] implies #[trigger] page_ok(
                    b1,
                    g1,
                    x,
                ) by {
                    if x != p && x != qi {
                        assert(page_ok(b0, g0, x));
                        if b0[x] is INNER {
                            assert forall|i: int| 0 <= i < b0[x]->INNER_0.records@.len() implies {
                                let c = (#[trigger] b0[x]->INNER_0.records@[i].value).0 as int;
                                &&& g1.level[c] == g0.level[c]
                                &&& g1.lo[c] == g0.lo[c]
                                &&& g1.hi[c] == g0.hi[c]
                                &&& g1.parent[c] == g0.parent[c]
                            } by {
                                let c = b0[x]->INNER_0.records@[i].value.0 as int;
                                assert(g0.parent[c] == x);
                                assert(c < n);
                            }
                        }
                        lemma_page_ok_kept(b0, g0, b1, g1, x);
                    }
                }
                if key < sep {
                    lemma_leaf_find_at(b1[p]->LEAF_0, index as int, key);
                } else {
                    lemma_leaf_find_at(b1[qi]->LEAF_0, index - 168, key);
                }
                lemma_leaf_split_frame(b0, g0, b1, p, key, rid, sep, q);
                lemma_leaf_split_leaves(b0, g0, b1, g1, p, sep, qi);
            }
            return Some((sep, q));
        }
        let mut taken = Page::default();
        core::mem::swap(&mut buffer[pi], &mut taken);
        let mut leaf = match taken {
            Page::LEAF(l) => l,
            Page::INNER(_) => LeafPage::empty(page_id),
        };
        self.add_to_leaf(rid, key, &mut leaf);
        proof {
            assert(leaf_keys(&old_leaf) == old_leaf.records@.map_values(|x: BTreeRecord<RecordID>| x.key));
            lemma_leaf_with(old_leaf.records@, key, rid);
        }
        buffer.set(pi, Page::LEAF(leaf));
        proof {
            let b1 = buffer@;
            let g1 = self.ghost();
            let keys0 = old_leaf.records@.map_values(|x: BTreeRecord<RecordID>| x.key);
            let i = leaf_pos(keys0, key, 0);
            assert(leaf_keys(&b1[p]->LEAF_0) == leaf_with(old_leaf.records@, i, key, rid).map_values(
                |x: BTreeRecord<RecordID>| x.key,
            ));
            assert forall|j: int| 0 <= j < leaf.records@.len() implies g1.lo[p] <= (
            #[trigger] leaf.records@[j]).key < g1.hi[p] by {
                if leaf.records@[j].key != key {
                    let k = choose|k: int| 0 <= k < old_leaf.records@.len() && old_leaf.records@[k].key == leaf.records@[j].key;
                    assert(g0.lo[p] <= old_leaf.records@[k].key < g0.hi[p]);
                }
            }
            assert(leaf.records@.len() <= LEAF_CAPACITY) by {
                if !(i < old_leaf.records@.len() && old_leaf.records@[i].key == key) {
                    assert(!full || found);
                }
            }
            assert(page_ok(b1, g1, p));
            assert forall|x: int| 0 <= x < b1.len() implies #[trigger] page_ok(b1, g1, x) by {
                if x != p {
                    assert(page_ok(b0, g0, x));
                    lemma_page_ok_kept(b0, g0, b1, g1, x);
                }
            }
            lemma_leaf_pos(keys0, key, 0);
            assert(leaf.records@ == leaf_with(old_leaf.records@, i, key, rid));
            lemma_leaf_find_at(leaf, i, key);
            lemma_leaf_with_frame(b0, g0, b1, p, key, rid);
            lemma_leaf_with_leaves(b0, g0, b1, p);
        }
        None
    }
}

/// The facts the insertion below the child in slot `i` of inner page `p`
/// leaves behind when the child was split at `sep` into itself and `q`.
pub open spec fn child_split(
    b0: Seq<Page>,
    g0: TreeGhost,
    b1: Seq<Page>,
    g1: TreeGhost,
    p: int,
    i: int,
    key: i32,
    rid: RecordID,
    sep: i32,
    q: PageID,
) -> bool {
    let recs = b0[p]->INNER_0.records@;
    let c = recs[i].value.0 as int;
    &&& ok_except(b0, g0, -1)
    &&& 0 <= p < b0.len()
    &&& b0[p] is INNER
    &&& 0 <= i < recs.len()
    &&& i == child_slot(recs, key, 0)
    &&& g0.lo[p] <= key < g0.hi[p]
    &&& b0.len() + g0.level[p] + 1 <= u32::MAX
    &&& insert_post(b0, g0, b1, g1, c, key, rid, Some((sep, q)))
    &&& b1[p] == b0[p]
}

/// After the child in slot `i` of inner page `p` split, adding the new
/// child to `p` (which had room) completes the insertion below `p`.
#[verifier::rlimit(50)]
#[verifier::spinoff_prover]
proof fn lemma_insert_child_post(
    b0: Seq<Page>,
    g0: TreeGhost,
    b1: Seq<Page>,
    g1: TreeGhost,
    b2: Seq<Page>,
    p: int,
    i: int,
    key: i32,
    rid: RecordID,
    sep: i32,
    q: PageID,
)
    requires
        child_split(b0, g0, b1, g1, p, i, key, rid, sep, q),
        b0[p]->INNER_0.records@.len() < INNER_CAPACITY,
        b2.len() == b1.len(),
        forall|x: int| 0 <= x < b1.len() && x != p ==> #[trigger] b2[x] == b1[x],
        b2[p] is INNER,
        b2[p]->INNER_0.records@ == with_child(b0[p]->INNER_0.records@, i, sep, q),
    ensures
        insert_post(b0, g0, b2, g1, p, key, rid, None),
{
    let recs = b0[p]->INNER_0.records@;
    let c = recs[i].value.0 as int;
    let qi = q.0 as int;
    let n = b0.len();
    assert(page_ok(b0, g0, p));
    assert(g0.level[c] + 1 == g0.level[p]);
    assert(g0.parent[c] == p);
    assert forall|a: int| 0 <= a < recs.len() implies {
        let x = (#[trigger] recs[a].value).0 as int;
        &&& 0 <= x < b2.len()
        &&& x != qi
        &&& g0.level[x] + 1 == g0.level[p]
        &&& g0.parent[x] == p
        &&& g0.lo[x] == slot_lo(recs, g0.lo[p], a)
        &&& g0.hi[x] == slot_hi(recs, g0.hi[p], a)
        &&& x != c ==> g1.level[x] == g0.level[x] && g1.lo[x] == g0.lo[x] && g1.hi[x] == g0.hi[x]
            && g1.parent[x] == g0.parent[x]
    } by {
        let x = recs[a].value.0 as int;
        assert(g0.level[x] == g0.level[c]);
        if x != c {
            assert(b1[x] == b0[x]);
        }
    }
    lemma_inner_insert(recs, i, sep, q, g0, g1, p, c, qi, b2.len() as int);
    assert(page_ok(b2, g1, p));
    assert forall|x: int| 0 <= x < b2.len() implies #[trigger] page_ok(b2, g1, x) by {
        if x != p {
            assert(page_ok(b1, g1, x));
            lemma_page_ok_kept(b1, g1, b2, g1, x);
        }
    }
    let r2 = with_child(recs, i, sep, q);
    assert forall|a: int| 0 <= a < r2.len() implies #[trigger] r2[a] == if a < i {
        recs[a]
    } else if a == i {
        BTreeRecord { key: sep, value: recs[i].value }
    } else if a == i + 1 {
        BTreeRecord { key: recs[i].key, value: q }
    } else {
        recs[a - 1]
    } by {}
    lemma_child_slot(recs, key, 0);
    if key < sep {
        lemma_child_slot_is(r2, key, i);
        lemma_route_frame(b1, b2, g1, p, c, key);
    } else {
        assert(i < recs.len() - 1 ==> recs[i].key > key);
        lemma_child_slot_is(r2, key, i + 1);
        lemma_route_frame(b1, b2, g1, p, qi, key);
    }
    assert forall|x: int|
        0 <= x < n && x != p && g0.level[x] >= g0.level[p] implies #[trigger] b2[x] == b0[x] && g1.lo[x]
        == g0.lo[x] && g1.hi[x] == g0.hi[x] && g1.parent[x] == g0.parent[x] by {
        assert(b1[x] == b0[x]);
    }
}

/// The state after the child in slot `i` of the full inner page `p` split
/// and `p` was split in turn.
pub open spec fn split_state(
    b0: Seq<Page>,
    g0: TreeGhost,
    b1: Seq<Page>,
    g1: TreeGhost,
    b2: Seq<Page>,
    g2: TreeGhost,
    p: int,
    i: int,
    key: i32,
    rid: RecordID,
    sep: i32,
    q: PageID,
    kp: i32,
    q2: PageID,
) -> bool {
    &&& child_split(b0, g0, b1, g1, p, i, key, rid, sep, q)
    &&& b0[p]->INNER_0.records@.len() == INNER_CAPACITY
    &&& {

            let rr = b0[p]->INNER_0.records@;
            let n1 = b1.len();
            let q2i = q2.0 as int;
            let lower = inner_lower(rr);
            let upper = inner_upper(rr);
            &&& q2i == n1
            &&& b2.len() == n1 + 1
            &&& forall|x: int| 0 <= x < n1 && x != p ==> #[trigger] b2[x] == b1[x]
            &&& b2[p] is INNER
            &&& b2[q2i] is INNER
            &&& kp == rr[254].key
            &&& if sep < kp {
                &&& b2[p]->INNER_0.records@ == with_child(lower, child_slot(lower, sep, 0), sep, q)
                &&& b2[q2i]->INNER_0.records@ == upper
            } else {
                &&& b2[p]->INNER_0.records@ == lower
                &&& b2[q2i]->INNER_0.records@ == with_child(upper, child_slot(upper, sep, 0), sep, q)
            }
            &&& g2.level == g1.level.insert(q2i, g0.level[p])
            &&& g2.lo == g1.lo.insert(q2i, kp as int)
            &&& g2.hi == g1.hi.insert(p, kp as int).insert(q2i, g0.hi[p])
            &&& forall|x: int|
                #[trigger] g2.parent[x] == if x == q2i {
                    g0.parent[p]
                } else if exists|j: int|
                    0 <= j < b2[q2i]->INNER_0.records@.len() && b2[q2i]->INNER_0.records@[j].value.0 == x {
                    q2i
                } else {
                    g1.parent[x]
                }
        
    }
}

/// The facts an inner split rests on: the split page's old records `r`
/// and ghost data `g0`, the ghost data `g1` after the child `c` in slot `i`
/// split at `sep` into itself and `q`, and the pages `b2` and ghost data
/// `g2` after the split page divided at `kp` into itself and `q2i`.
pub open spec fn split_facts(
    r: Seq<BTreeRecord<PageID>>,
    g0: TreeGhost,
    g1: TreeGhost,
    g2: TreeGhost,
    b2: Seq<Page>,
    p: int,
    i: int,
    c: int,
    key: i32,
    sep: i32,
    q: PageID,
    kp: i32,
    q2i: int,
    n: int,
    n1: int,
) -> bool {
    let qi = q.0 as int;
    let lower = inner_lower(r);
    let upper = inner_upper(r);
    let moved = b2[q2i]->INNER_0.records@;
    &&& r.len() == INNER_CAPACITY
    &&& page_ok_records(r, g0, p, n)
    &&& g0.level[p] >= 1
    &&& 0 <= p < n
    &&& 0 <= i < r.len()
    &&& c == r[i].value.0 as int
    &&& i == child_slot(r, key, 0)
    &&& g0.lo[c] <= key < g0.hi[c]
    &&& forall|a: int|
        0 <= a < r.len() ==> {
            let x = (#[trigger] r[a].value).0 as int;
            x != c ==> g1.level[x] == g0.level[x] && g1.lo[x] == g0.lo[x] && g1.hi[x] == g0.hi[x] && g1.parent[x]
                == g0.parent[x]
        }
    &&& g1.level[c] == g0.level[c]
    &&& g1.lo[c] == g0.lo[c]
    &&& g1.parent[c] == g0.parent[c]
    &&& g1.hi[c] == sep
    &&& g1.lo[qi] == sep
    &&& g1.hi[qi] == g0.hi[c]
    &&& g1.level[qi] == g0.level[c]
    &&& g1.parent[qi] == p
    &&& g1.level[p] == g0.level[p]
    &&& g1.lo[p] == g0.lo[p]
    &&& g1.hi[p] == g0.hi[p]
    &&& g1.parent[p] == g0.parent[p]
    &&& g0.lo[c] < sep < g0.hi[c]
    &&& n <= qi < n1
    &&& kp == r[254].key
    &&& q2i == n1
    &&& b2.len() == n1 + 1
    &&& b2[p] is INNER
    &&& b2[q2i] is INNER
    &&& if sep < kp {
        &&& b2[p]->INNER_0.records@ == with_child(lower, child_slot(lower, sep, 0), sep, q)
        &&& b2[q2i]->INNER_0.records@ == upper
    } else {
        &&& b2[p]->INNER_0.records@ == lower
        &&& b2[q2i]->INNER_0.records@ == with_child(upper, child_slot(upper, sep, 0), sep, q)
    }
    &&& g2.level == g1.level.insert(q2i, g0.level[p])
    &&& g2.lo == g1.lo.insert(q2i, kp as int)
    &&& g2.hi == g1.hi.insert(p, kp as int).insert(q2i, g0.hi[p])
    &&& forall|x: int|
        #[trigger] g2.parent[x] == if x == q2i {
            g0.parent[p]
        } else if exists|j: int| 0 <= j < moved.len() && moved[j].value.0 == x {
            q2i
        } else {
            g1.parent[x]
        }
}

/// An inner split whose new child goes to the left half leaves both halves
/// consistent; `key` routes in the left half to `c` or `q`.
#[verifier::rlimit(100)]
#[verifier::spinoff_prover]
proof fn lemma_split_left(
    r: Seq<BTreeRecord<PageID>>,
    g0: TreeGhost,
    g1: TreeGhost,
    g2: TreeGhost,
    b2: Seq<Page>,
    p: int,
    i: int,
    c: int,
    key: i32,
    sep: i32,
    q: PageID,
    kp: i32,
    q2i: int,
    n: int,
    n1: int,
)
    requires
        split_facts(r, g0, g1, g2, b2, p, i, c, key, sep, q, kp, q2i, n, n1),
        sep < kp,
    ensures
        page_ok(b2, g2, p),
        page_ok(b2, g2, q2i),
        key < kp,
        ({
            let rr = b2[p]->INNER_0.records@;
            let s = child_slot(rr, key, 0);
            &&& 0 <= s < rr.len()
            &&& rr[s].value.0 as int == if key < sep { c } else { q.0 as int }
        }),
{
    let qi = q.0 as int;
    let lower = inner_lower(r);
    let upper = inner_upper(r);
    let moved = b2[q2i]->INNER_0.records@;
    assert(g0.level[c] + 1 == g0.level[p]);
    assert(g0.parent[c] == p);
    assert forall|a: int| 0 <= a < r.len() implies 0 <= (#[trigger] r[a].value).0 < n by {}
    lemma_child_slot(r, key, 0);
    assert(forall|a: int| 0 <= a < lower.len() ==> #[trigger] lower[a] == r[a]);
    assert(forall|a: int| 0 <= a < upper.len() ==> #[trigger] upper[a] == r[a + 255]);
        assert(i <= 254) by {
            if i > 254 {
                assert(r[i - 1].key >= r[254].key);
            }
        }
        lemma_child_slot_is(lower, sep, i);
        let lower2 = with_child(lower, i, sep, q);
        assert(moved == upper);
        assert forall|j: int|
            0 <= j < moved.len() implies (exists|a: int| 255 <= a < r.len() && (#[trigger] moved[j]).value == r[a].value)
            || moved[j].value.0 == qi by {
            assert(moved[j].value == r[j + 255].value);
        }
        lemma_split_parent_facts(r, g1, g2, p, qi, q2i, n, moved, 255);
        assert forall|j: int| 0 <= j < moved.len() implies (#[trigger] moved[j].value).0 != qi by {
            assert(moved[j].value == r[j + 255].value);
        }
        let ga = TreeGhost { hi: g0.hi.insert(p, kp as int), ..g0 };
        assert forall|a: int| 0 <= a < lower.len() implies {
            let x = (#[trigger] lower[a].value).0 as int;
            &&& 0 <= x < b2.len()
            &&& x != qi
            &&& ga.level[x] + 1 == ga.level[p]
            &&& ga.parent[x] == p
            &&& ga.lo[x] == slot_lo(lower, ga.lo[p], a)
            &&& ga.hi[x] == slot_hi(lower, ga.hi[p], a)
            &&& x != c ==> g2.level[x] == ga.level[x] && g2.lo[x] == ga.lo[x] && g2.hi[x] == ga.hi[x]
                && g2.parent[x] == ga.parent[x]
        } by {
            let x = r[a].value.0 as int;
            assert(lower[a] == r[a]);
            assert(g2.parent[r[a].value.0 as int] == g1.parent[r[a].value.0 as int]);
            assert(x != p);
        }
        assert forall|a: int, b: int| 0 <= a < b < lower.len() - 1 implies (#[trigger] lower[a]).key < (
        #[trigger] lower[b]).key by {}
        assert forall|a: int| 0 <= a < lower.len() - 1 implies ga.lo[p] < (#[trigger] lower[a]).key < ga.hi[p] by {
            assert(r[a].key < r[254].key);
        }
        assert(g2.parent[qi] == p);
        lemma_inner_insert(lower, i, sep, q, ga, g2, p, c, qi, b2.len() as int);
        assert(page_ok(b2, g2, p));
        assert forall|a: int| 255 <= a < r.len() implies {
            let x = (#[trigger] r[a].value).0 as int;
            &&& g2.parent[x] == q2i
            &&& g2.level[x] == g0.level[x]
            &&& g2.lo[x] == g0.lo[x]
            &&& g2.hi[x] == g0.hi[x]
        } by {
            let x = r[a].value.0 as int;
            assert(moved[a - 255].value == r[a].value);
            assert(x != c) by {
                assert(r[i].value != r[a].value);
            }
        }
        lemma_upper_ok(r, g0, g2, p, q2i, b2);
        let lower2v = b2[p]->INNER_0.records@;
        assert forall|a: int| 0 <= a < lower2.len() implies #[trigger] lower2[a] == if a < i {
            lower[a]
        } else if a == i {
            BTreeRecord { key: sep, value: lower[i].value }
        } else if a == i + 1 {
            BTreeRecord { key: lower[i].key, value: q }
        } else {
            lower[a - 1]
        } by {}
        if key < sep {
            lemma_child_slot_is(lower2, key, i);
        } else {
            assert(i < 254 ==> r[i].key > key);
            assert(i == 254 ==> g0.hi[c] == r[254].key);
            lemma_child_slot_is(lower2, key, i + 1);
        }
        assert(key < kp) by {
            if i < 254 {
                assert(r[i].key <= r[254].key);
            }
        }
}

/// The left half of an inner split whose new child goes to the right half
/// stays consistent.
#[verifier::rlimit(100)]
#[verifier::spinoff_prover]
proof fn lemma_split_right_lower(
    r: Seq<BTreeRecord<PageID>>,
    g0: TreeGhost,
    g1: TreeGhost,
    g2: TreeGhost,
    b2: Seq<Page>,
    p: int,
    i: int,
    c: int,
    key: i32,
    sep: i32,
    q: PageID,
    kp: i32,
    q2i: int,
    n: int,
    n1: int,
)
    requires
        split_facts(r, g0, g1, g2, b2, p, i, c, key, sep, q, kp, q2i, n, n1),
        sep >= kp,
    ensures
        page_ok(b2, g2, p),
{
    let qi = q.0 as int;
    let lower = inner_lower(r);
    let upper = inner_upper(r);
    let moved = b2[q2i]->INNER_0.records@;
    assert(g0.level[c] + 1 == g0.level[p]);
    assert(g0.parent[c] == p);
    assert forall|a: int| 0 <= a < r.len() implies 0 <= (#[trigger] r[a].value).0 < n by {}
    lemma_child_slot(r, key, 0);
    assert(forall|a: int| 0 <= a < lower.len() ==> #[trigger] lower[a] == r[a]);
    assert(forall|a: int| 0 <= a < upper.len() ==> #[trigger] upper[a] == r[a + 255]);
        assert(i >= 255) by {
            if i <= 254 {
                assert(r[i].key <= r[254].key);
            }
        }
        let j = i - 255;
        lemma_child_slot_is(upper, sep, j);
        let upper2 = with_child(upper, j, sep, q);
        assert(moved == upper2);
        assert forall|jj: int| 0 <= jj < moved.len() implies (exists|a: int|
            255 <= a < r.len() && (#[trigger] moved[jj]).value == r[a].value) || moved[jj].value.0 == qi by {
            if jj < j {
                assert(moved[jj].value == r[jj + 255].value);
            } else if jj == j {
                assert(moved[jj].value == r[i].value);
            } else if jj > j + 1 {
                assert(moved[jj].value == r[jj + 254].value);
            }
        }
        lemma_split_parent_facts(r, g1, g2, p, qi, q2i, n, moved, 255);
        assert forall|a: int| 0 <= a < 255 implies {
            let x = (#[trigger] r[a].value).0 as int;
            &&& g2.parent[x] == p
            &&& g2.level[x] == g0.level[x]
            &&& g2.lo[x] == g0.lo[x]
            &&& g2.hi[x] == g0.hi[x]
        } by {
            let x = r[a].value.0 as int;
            assert(x != c) by {
                assert(r[i].value != r[a].value);
            }
            assert(x != p);
        }
        lemma_lower_ok(r, g0, g2, p, b2);
}

/// The right half of an inner split whose new child goes there stays
/// consistent.
#[verifier::rlimit(100)]
#[verifier::spinoff_prover]
proof fn lemma_split_right(
    r: Seq<BTreeRecord<PageID>>,
    g0: TreeGhost,
    g1: TreeGhost,
    g2: TreeGhost,
    b2: Seq<Page>,
    p: int,
    i: int,
    c: int,
    key: i32,
    sep: i32,
    q: PageID,
    kp: i32,
    q2i: int,
    n: int,
    n1: int,
)
    requires
        split_facts(r, g0, g1, g2, b2, p, i, c, key, sep, q, kp, q2i, n, n1),
        sep >= kp,
    ensures
        page_ok(b2, g2, q2i),
{
    let qi = q.0 as int;
    let lower = inner_lower(r);
    let upper = inner_upper(r);
    let moved = b2[q2i]->INNER_0.records@;
    assert(g0.level[c] + 1 == g0.level[p]);
    assert(g0.parent[c] == p);
    assert forall|a: int| 0 <= a < r.len() implies 0 <= (#[trigger] r[a].value).0 < n by {}
    lemma_child_slot(r, key, 0);
    assert(forall|a: int| 0 <= a < lower.len() ==> #[trigger] lower[a] == r[a]);
    assert(forall|a: int| 0 <= a < upper.len() ==> #[trigger] upper[a] == r[a + 255]);
        assert(i >= 255) by {
            if i <= 254 {
                assert(r[i].key <= r[254].key);
            }
        }
        let j = i - 255;
        lemma_child_slot_is(upper, sep, j);
        let upper2 = with_child(upper, j, sep, q);
        assert(moved == upper2);
        assert forall|jj: int| 0 <= jj < moved.len() implies (exists|a: int|
            255 <= a < r.len() && (#[trigger] moved[jj]).value == r[a].value) || moved[jj].value.0 == qi by {
            if jj < j {
                assert(moved[jj].value == r[jj + 255].value);
            } else if jj == j {
                assert(moved[jj].value == r[i].value);
            } else if jj > j + 1 {
                assert(moved[jj].value == r[jj + 254].value);
            }
        }
        lemma_split_parent_facts(r, g1, g2, p, qi, q2i, n, moved, 255);
        let gb = TreeGhost { hi: g2.hi.insert(c, g0.hi[c]), ..g2 };
        assert(moved[j + 1].value == q);
        assert(g2.parent[qi] == q2i);
        assert(moved[j].value == r[i].value);
        assert(g2.parent[c] == q2i);
        assert forall|a: int| 0 <= a < upper.len() implies {
            let x = (#[trigger] upper[a].value).0 as int;
            &&& 0 <= x < b2.len()
            &&& x != qi
            &&& gb.level[x] + 1 == gb.level[q2i]
            &&& gb.parent[x] == q2i
            &&& gb.lo[x] == slot_lo(upper, gb.lo[q2i], a)
            &&& gb.hi[x] == slot_hi(upper, gb.hi[q2i], a)
            &&& x != c ==> g2.level[x] == gb.level[x] && g2.lo[x] == gb.lo[x] && g2.hi[x] == gb.hi[x]
                && g2.parent[x] == gb.parent[x]
        } by {
            let x = r[a + 255].value.0 as int;
            assert(upper[a] == r[a + 255]);
            assert(x != p);
            if a < j {
                assert(moved[a].value == r[a + 255].value);
            } else if a > j {
                assert(moved[a + 1].value == r[a + 255].value);
            }
            assert(g0.lo[x] == slot_lo(r, g0.lo[p], a + 255));
            assert(g0.hi[x] == slot_hi(r, g0.hi[p], a + 255));
        }
        assert forall|a: int, b: int| 0 <= a < b < upper.len() - 1 implies (#[trigger] upper[a]).key < (
        #[trigger] upper[b]).key by {
            assert(r[a + 255].key < r[b + 255].key);
        }
        assert forall|a: int| 0 <= a < upper.len() - 1 implies gb.lo[q2i] < (#[trigger] upper[a]).key < gb.hi[q2i] by {
            assert(r[254].key < r[a + 255].key);
        }
        assert forall|a: int, b: int| 0 <= a < b < upper.len() implies (#[trigger] upper[a]).value != (
        #[trigger] upper[b]).value by {
            assert(r[a + 255].value != r[b + 255].value);
        }
        lemma_inner_insert(upper, j, sep, q, gb, g2, q2i, c, qi, b2.len() as int);
        assert(page_ok(b2, g2, q2i));
}

/// In the right half of an inner split `key` routes to `c` or `q`.
#[verifier::rlimit(100)]
#[verifier::spinoff_prover]
proof fn lemma_split_right_route(
    r: Seq<BTreeRecord<PageID>>,
    g0: TreeGhost,
    g1: TreeGhost,
    g2: TreeGhost,
    b2: Seq<Page>,
    p: int,
    i: int,
    c: int,
    key: i32,
    sep: i32,
    q: PageID,
    kp: i32,
    q2i: int,
    n: int,
    n1: int,
)
    requires
        split_facts(r, g0, g1, g2, b2, p, i, c, key, sep, q, kp, q2i, n, n1),
        sep >= kp,
    ensures
        key >= kp,
        ({
            let rr = b2[q2i]->INNER_0.records@;
            let s = child_slot(rr, key, 0);
            &&& 0 <= s < rr.len()
            &&& rr[s].value.0 as int == if key < sep { c } else { q.0 as int }
        }),
{
    let upper = inner_upper(r);
    lemma_child_slot(r, key, 0);
    assert(forall|a: int| 0 <= a < upper.len() ==> #[trigger] upper[a] == r[a + 255]);
    assert(i >= 255) by {
        if i <= 254 {
            assert(r[i].key <= r[254].key);
        }
    }
    let j = i - 255;
    lemma_child_slot_is(upper, sep, j);
    let upper2 = with_child(upper, j, sep, q);
        assert forall|a: int| 0 <= a < upper2.len() implies #[trigger] upper2[a] == if a < j {
            upper[a]
        } else if a == j {
            BTreeRecord { key: sep, value: upper[j].value }
        } else if a == j + 1 {
            BTreeRecord { key: upper[j].key, value: q }
        } else {
            upper[a - 1]
        } by {}
        assert(key >= kp) by {
            assert(r[i - 1].key >= r[254].key);
        }
        assert forall|t: int| 0 <= t < j implies (#[trigger] upper[t]).key <= key by {
            assert(r[t + 255].key <= r[i - 1].key);
        }
        if key < sep {
            lemma_child_slot_is(upper2, key, j);
        } else {
            lemma_child_slot_is(upper2, key, j + 1);
        }
}

/// An inner split leaves every page but the two halves and their parent
/// consistent.
proof fn lemma_split_others(b1: Seq<Page>, g1: TreeGhost, b2: Seq<Page>, g2: TreeGhost, p: int, q2i: int)
    requires
        ok_except(b1, g1, p),
        0 <= p < b1.len(),
        q2i == b1.len(),
        b2.len() == b1.len() + 1,
        forall|x: int| 0 <= x < b1.len() && x != p ==> #[trigger] b2[x] == b1[x],
        forall|x: int| x != q2i ==> #[trigger] g2.level[x] == g1.level[x],
        forall|x: int| x != q2i ==> #[trigger] g2.lo[x] == g1.lo[x],
        forall|x: int| x != q2i && x != p ==> #[trigger] g2.hi[x] == g1.hi[x],
        forall|x: int| #[trigger] g2.parent[x] != g1.parent[x] ==> x == q2i || g1.parent[x] == p,
    ensures
        forall|x: int| 0 <= x < b2.len() && x != p && x != q2i && x != g1.parent[p] ==> #[trigger] page_ok(b2, g2, x),
{
    assert forall|x: int| 0 <= x < b2.len() && x != p && x != q2i && x != g1.parent[p] implies #[trigger] page_ok(
        b2,
        g2,
        x,
    ) by {
        assert(page_ok(b1, g1, x));
        if b1[x] is INNER {
            assert forall|a: int| 0 <= a < b1[x]->INNER_0.records@.len() implies {
                let y = (#[trigger] b1[x]->INNER_0.records@[a].value).0 as int;
                &&& g2.level[y] == g1.level[y]
                &&& g2.lo[y] == g1.lo[y]
                &&& g2.hi[y] == g1.hi[y]
                &&& g2.parent[y] == g1.parent[y]
            } by {
                let y = b1[x]->INNER_0.records@[a].value.0 as int;
                assert(g1.parent[y] == x);
                assert(y < b1.len());
                if y == p {
                    assert(g1.parent[p] == x);
                }
            }
        }
        lemma_page_ok_kept(b1, g1, b2, g2, x);
    }
}

/// After the child in slot `i` of the full inner page `p` split, splitting
/// Splitting the full inner page `p` while adding the new child completes
/// the insertion below `p` up to `p`'s parent.
#[verifier::rlimit(100)]
#[verifier::spinoff_prover]
proof fn lemma_split_inner_post(
    b0: Seq<Page>,
    g0: TreeGhost,
    b1: Seq<Page>,
    g1: TreeGhost,
    b2: Seq<Page>,
    g2: TreeGhost,
    p: int,
    i: int,
    key: i32,
    rid: RecordID,
    sep: i32,
    q: PageID,
    kp: i32,
    q2: PageID,
)
    requires
        split_state(b0, g0, b1, g1, b2, g2, p, i, key, rid, sep, q, kp, q2),
    ensures
        insert_post(b0, g0, b2, g2, p, key, rid, Some((kp, q2))),
{
    let r = b0[p]->INNER_0.records@;
    let c = r[i].value.0 as int;
    let qi = q.0 as int;
    let q2i = q2.0 as int;
    let n = b0.len() as int;
    let n1 = b1.len() as int;
    let moved = b2[q2i]->INNER_0.records@;
    assert(page_ok(b0, g0, p));
    assert(page_ok_records(r, g0, p, n));
    assert(g0.level[c] + 1 == g0.level[p]);
    assert(g0.parent[c] == p);
    assert forall|a: int| 0 <= a < r.len() implies {
        let x = (#[trigger] r[a].value).0 as int;
        x != c ==> g1.level[x] == g0.level[x] && g1.lo[x] == g0.lo[x] && g1.hi[x] == g0.hi[x] && g1.parent[x]
            == g0.parent[x]
    } by {
        let x = r[a].value.0 as int;
        assert(g0.level[x] == g0.level[c]);
        if x != c {
            assert(b1[x] == b0[x]);
        }
    }
    lemma_child_slot(r, key, 0);
    assert(g0.lo[c] <= key) by {
        if i > 0 {
            assert(r[i - 1].key <= key);
        }
    }
    assert(split_facts(r, g0, g1, g2, b2, p, i, c, key, sep, q, kp, q2i, n, n1));
    let child = if key < sep { c } else { qi };
    let half = if sep < kp { p } else { q2i };
    if sep < kp {
        lemma_split_left(r, g0, g1, g2, b2, p, i, c, key, sep, q, kp, q2i, n, n1);
    } else {
        lemma_split_right_lower(r, g0, g1, g2, b2, p, i, c, key, sep, q, kp, q2i, n, n1);
        lemma_split_right(r, g0, g1, g2, b2, p, i, c, key, sep, q, kp, q2i, n, n1);
        lemma_split_right_route(r, g0, g1, g2, b2, p, i, c, key, sep, q, kp, q2i, n, n1);
    }
    assert(route(b2, half, key, g0.level[p]) == route(b2, child, key, g0.level[c]));
    lemma_route_frame(b1, b2, g1, p, child, key);
    let l = route(b1, child, key, g0.level[c]);
    assert(0 <= l < b1.len() && b1[l] is LEAF);
    assert(b2[l] == b1[l]) by {
        assert(l != p);
    }
    lemma_split_moved(r, g0, g1, g2, b2, p, i, c, key, sep, q, kp, q2i, n, n1);
    lemma_split_others(b1, g1, b2, g2, p, q2i);
    assert(key < sep ==> finds(b1, c, key, rid, g0.level[c]));
    assert(key >= sep ==> finds(b1, qi, key, rid, g0.level[c]));
    assert(finds(b2, half, key, rid, g0.level[p]));
    assert(g0.lo[p] < kp < g0.hi[p]) by {
        assert(r[254].key == kp);
    }
    assert(ok_except(b2, g2, g0.parent[p])) by {
        assert forall|x: int| 0 <= x < b2.len() && x != g0.parent[p] implies #[trigger] page_ok(b2, g2, x) by {
            if x == p || x == q2i {
            } else {
                assert(x != g1.parent[p]);
            }
        }
    }
    assert forall|x: int| 0 <= x < n implies #[trigger] g2.level[x] == g0.level[x] by {}
    assert forall|x: int| n <= x < b2.len() implies #[trigger] g2.level[x] <= g0.level[p] by {
        if x < n1 {
            assert(g1.level[x] <= g0.level[c]);
        }
    }
    assert forall|x: int|
        0 <= x < n && x != p && g0.level[x] >= g0.level[p] implies #[trigger] b2[x] == b0[x] && g2.lo[x] == g0.lo[x]
        && g2.hi[x] == g0.hi[x] && g2.parent[x] == g0.parent[x] by {
        assert(x != c);
        assert(b1[x] == b0[x]);
        if g2.parent[x] != g1.parent[x] {
            assert(g0.level[x] + 1 == g0.level[p]);
        }
    }
    assert(n <= b2.len() <= n + g0.level[p] + 1);
    assert(g2.lo[p] == g0.lo[p]);
    assert(g2.parent[p] == g0.parent[p]) by {
        if g2.parent[p] != g1.parent[p] {
            assert(g0.level[p] + 1 == g0.level[p]);
        }
    }
    assert(g2.hi[p] == kp);
    assert(g2.lo[q2i] == kp && g2.hi[q2i] == g0.hi[p] && g2.level[q2i] == g0.level[p] && g2.parent[q2i] == g0.parent[p]);
    assert(key < kp ==> finds(b2, p, key, rid, g0.level[p]));
    assert(key >= kp ==> finds(b2, q2i, key, rid, g0.level[p]));
    lemma_insert_post_some(b0, g0, b2, g2, p, key, rid, kp, q2);
}

/// Collects the facts of a split insertion into [`insert_post`].
proof fn lemma_insert_post_some(
    b0: Seq<Page>,
    g0: TreeGhost,
    b1: Seq<Page>,
    g1: TreeGhost,
    p: int,
    key: i32,
    rid: RecordID,
    sep: i32,
    q: PageID,
)
    requires
        b0.len() <= b1.len() <= b0.len() + g0.level[p] + 1,
        forall|x: int| 0 <= x < b0.len() ==> #[trigger] g1.level[x] == g0.level[x],
        forall|x: int| b0.len() <= x < b1.len() ==> #[trigger] g1.level[x] <= g0.level[p],
        forall|x: int|
            0 <= x < b0.len() && x != p && g0.level[x] >= g0.level[p] ==> #[trigger] b1[x] == b0[x] && g1.lo[x]
                == g0.lo[x] && g1.hi[x] == g0.hi[x] && g1.parent[x] == g0.parent[x],
        g1.lo[p] == g0.lo[p],
        g1.parent[p] == g0.parent[p],
        b0.len() <= q.0 < b1.len(),
        ok_except(b1, g1, g0.parent[p]),
        g0.lo[p] < sep < g0.hi[p],
        g1.hi[p] == sep,
        g1.lo[q.0 as int] == sep,
        g1.hi[q.0 as int] == g0.hi[p],
        g1.level[q.0 as int] == g0.level[p],
        g1.parent[q.0 as int] == g0.parent[p],
        key < sep ==> finds(b1, p, key, rid, g0.level[p]),
        key >= sep ==> finds(b1, q.0 as int, key, rid, g0.level[p]),
    ensures
        insert_post(b0, g0, b1, g1, p, key, rid, Some((sep, q))),
{
}

/// The children an inner split moves were children of the split page.
#[verifier::rlimit(100)]
#[verifier::spinoff_prover]
proof fn lemma_split_moved(
    r: Seq<BTreeRecord<PageID>>,
    g0: TreeGhost,
    g1: TreeGhost,
    g2: TreeGhost,
    b2: Seq<Page>,
    p: int,
    i: int,
    c: int,
    key: i32,
    sep: i32,
    q: PageID,
    kp: i32,
    q2i: int,
    n: int,
    n1: int,
)
    requires
        split_facts(r, g0, g1, g2, b2, p, i, c, key, sep, q, kp, q2i, n, n1),
    ensures
        forall|x: int| #[trigger] g2.parent[x] != g1.parent[x] ==> x == q2i || g1.parent[x] == p,
        forall|x: int|
            0 <= x < n && #[trigger] g2.parent[x] != g1.parent[x] ==> g0.level[x] + 1 == g0.level[p],
{
    let moved = b2[q2i]->INNER_0.records@;
    let qi = q.0 as int;
    let upper = inner_upper(r);
    assert(forall|a: int| 0 <= a < upper.len() ==> #[trigger] upper[a] == r[a + 255]);
    if sep < kp {
        assert(moved == upper);
    } else {
        let jj = child_slot(upper, sep, 0);
        lemma_child_slot(upper, sep, 0);
        assert(moved == with_child(upper, jj, sep, q));
        assert forall|a: int| 0 <= a < moved.len() implies #[trigger] moved[a] == if a < jj {
            upper[a]
        } else if a == jj {
            BTreeRecord { key: sep, value: upper[jj].value }
        } else if a == jj + 1 {
            BTreeRecord { key: upper[jj].key, value: q }
        } else {
            upper[a - 1]
        } by {}
    }
    assert forall|x: int| #[trigger] g2.parent[x] != g1.parent[x] implies (x == q2i || g1.parent[x] == p) && (0 <= x
        < n ==> g0.level[x] + 1 == g0.level[p]) by {
        if x != q2i {
            let j = choose|j: int| 0 <= j < moved.len() && moved[j].value.0 == x;
            if sep < kp {
                assert(moved[j].value == r[j + 255].value);
                assert(g0.parent[x] == p);
            } else {
                let jj = child_slot(upper, sep, 0);
                if j < jj {
                    assert(moved[j].value == r[j + 255].value);
                    assert(g0.parent[x] == p);
                } else if j > jj + 1 {
                    assert(moved[j].value == r[j + 254].value);
                    assert(g0.parent[x] == p);
                } else if j == jj {
                    assert(moved[j].value == upper[jj].value);
                    assert(upper[jj] == r[jj + 255]);
                    assert(g0.parent[x] == p);
                } else {
                    assert(x == qi);
                }
            }
        }
    }
}

/// When the insertion below the child in slot `i` of inner page `p` split
/// nothing, the insertion below `p` is complete.
proof fn lemma_child_done_post(
    b0: Seq<Page>,
    g0: TreeGhost,
    b1: Seq<Page>,
    g1: TreeGhost,
    p: int,
    i: int,
    key: i32,
    rid: RecordID,
)
    requires
        ok_except(b0, g0, -1),
        0 <= p < b0.len(),
        b0[p] is INNER,
        0 <= i < b0[p]->INNER_0.records@.len(),
        i == child_slot(b0[p]->INNER_0.records@, key, 0),
        insert_post(b0, g0, b1, g1, b0[p]->INNER_0.records@[i].value.0 as int, key, rid, None),
        b1[p] == b0[p],
    ensures
        insert_post(b0, g0, b1, g1, p, key, rid, None),
{
    let recs = b0[p]->INNER_0.records@;
    let c = recs[i].value.0 as int;
    assert(page_ok(b0, g0, p));
    assert(g0.level[c] + 1 == g0.level[p]);
    assert(route(b1, p, key, g0.level[p]) == route(b1, c, key, g0.level[c]));
    assert forall|x: int|
        0 <= x < b0.len() && x != p && g0.level[x] >= g0.level[p] implies #[trigger] b1[x] == b0[x] && g1.lo[x]
        == g0.lo[x] && g1.hi[x] == g0.hi[x] && g1.parent[x] == g0.parent[x] by {
        assert(x != c);
    }
    assert(g1.lo[p] == g0.lo[p] && g1.hi[p] == g0.hi[p] && g1.parent[p] == g0.parent[p]) by {
        assert(b1[p] == b0[p]);
    }
}

impl UniqueBPlusTree {
    /// Stores `rid` under `key`, over the old record id when the key is
    /// there. A root split adds a new root one level up.
    pub fn insert(&mut self, buffer: &mut Vec<Page>, key: i32, rid: RecordID)
        requires
            old(self).wf(old(buffer)@),
            old(buffer)@.len() < 0x7fff_ffff,
        ensures
            final(self).wf(final(buffer)@),
            final(self).maps(final(buffer)@, key) == Some(rid),
            forall|k: i32| k != key ==> #[trigger] final(self).maps(final(buffer)@, k) == old(self).maps(old(buffer)@, k),
            final(buffer)@.len() >= old(buffer)@.len(),
            old(self).maps(old(buffer)@, key) is Some ==> final(buffer)@.len() == old(buffer)@.len(),
    {
        let ghost b0 = buffer@;
        let ghost g0 = self.ghost();
        let ghost t0 = *self;
        let ghost root = self.root_page.0 as int;
        proof {
            assert(g0.level[root] < b0.len());
            assert(g0.lo[root] <= key < g0.hi[root]);
            lemma_route_leaf(b0, g0, root, key);
            assert(t0.maps(b0, key) == look(b0, root, key, g0.level[root]));
        }
        match self.recursive_insert(self.root_page, buffer, key, rid) {
            None => {
                proof {
                    let b1 = buffer@;
                    let g1 = self.ghost();
                    assert forall|x: int| 0 <= x < b1.len() implies #[trigger] g1.level[x] < b1.len() by {
                        if x < b0.len() {
                            assert(g1.level[x] == g0.level[x]);
                        }
                    }
                    assert(g1.level[root] == g0.level[root]);
                    Self::lemma_root_kept(&t0, b0, &*self, b1, key);
                }
            },
            Some((sep, q)) => {
                let ghost b1 = buffer@;
                let ghost g1 = self.ghost();
                let new_id = PageID(buffer.len() as u32);
                let old_root = self.root_page;
                let mut records: Vec<BTreeRecord<PageID>> = Vec::new();
                records.push(BTreeRecord { key: sep, value: old_root });
                records.push(BTreeRecord { key: 0, value: q });
                let new_root = InnerPage { records, id: new_id };
                self.root_page = new_id;
                buffer.push(Page::INNER(new_root));
                let ghost ni = new_id.0 as int;
                let ghost qi = q.0 as int;
                self.ghost_state = Ghost(
                    TreeGhost {
                        level: g1.level.insert(ni, g0.level[root] + 1),
                        lo: g1.lo.insert(ni, i32::MIN as int),
                        hi: g1.hi.insert(ni, i32::MAX + 1),
                        parent: g1.parent.insert(root, ni).insert(qi, ni).insert(ni, -1),
                    },
                );
                proof {
                    let b2 = buffer@;
                    let g2 = self.ghost();
                    assert(ni == b1.len());
                    assert(page_ok(b2, g2, ni)) by {
                        let r = b2[ni]->INNER_0.records@;
                        assert(r[0].value.0 as int == root);
                        assert(r[1].value.0 as int == qi);
                    }
                    assert forall|x: int| 0 <= x < b2.len() implies #[trigger] page_ok(b2, g2, x) by {
                        if x != ni {
                            assert(page_ok(b1, g1, x));
                            if b1[x] is INNER {
                                assert forall|a: int| 0 <= a < b1[x]->INNER_0.records@.len() implies {
                                    let y = (#[trigger] b1[x]->INNER_0.records@[a].value).0 as int;
                                    &&& g2.level[y] == g1.level[y]
                                    &&& g2.lo[y] == g1.lo[y]
                                    &&& g2.hi[y] == g1.hi[y]
                                    &&& g2.parent[y] == g1.parent[y]
                                } by {
                                    let y = b1[x]->INNER_0.records@[a].value.0 as int;
                                    assert(g1.parent[y] == x);
                                }
                            }
                            lemma_page_ok_kept(b1, g1, b2, g2, x);
                        }
                    }
                    assert forall|x: int| 0 <= x < b2.len() implies #[trigger] g2.level[x] < b2.len() by {
                        if x < b0.len() {
                            assert(g1.level[x] == g0.level[x]);
                        }
                    }
                    let r = b2[ni]->INNER_0.records@;
                    let child = if key < sep { root } else { qi };
                    if key < sep {
                        lemma_child_slot_is(r, key, 0);
                    } else {
                        lemma_child_slot_is(r, key, 1);
                    }
                    assert(route(b2, ni, key, g2.level[ni]) == route(b2, child, key, g0.level[root]));
                    lemma_route_frame(b1, b2, g1, -1, child, key);
                    let l = route(b1, child, key, g0.level[root]);
                    assert(b2[l] == b1[l]);
                    lemma_new_root_leaves(b1, g1, b2, g2, ni);
                    Self::lemma_root_split(&t0, b0, g1, b1, &*self, b2, key, sep, q);
                }
            },
        }
    }
}

/// What a lookup of `k` from page `p` within `n` levels finds: the record id
/// of `k` in the leaf routing reaches, or nothing when it is no leaf.
pub open spec fn look(b: Seq<Page>, p: int, k: i32, n: nat) -> Option<RecordID> {
    let l = route(b, p, k, n);
    if 0 <= l < b.len() && b[l] is LEAF {
        leaf_find(&b[l]->LEAF_0, k)
    } else {
        None
    }
}

/// Of the pages of `b0`, only those whose interval holds `key` differ in
/// `b1`.
#[verifier::opaque]
pub open spec fn changed_cover(b0: Seq<Page>, g0: TreeGhost, b1: Seq<Page>, key: i32) -> bool {
    forall|x: int| 0 <= x < b0.len() && #[trigger] b1[x] != b0[x] ==> g0.lo[x] <= key < g0.hi[x]
}

/// Lookups of the keys of `p`'s interval other than `key` find in `b1`
/// what they found in `b0`: from `p`, or, when `p` was split at `r`'s
/// separator, from the half the key falls in.
#[verifier::opaque]
pub open spec fn keeps_others(
    b0: Seq<Page>,
    g0: TreeGhost,
    b1: Seq<Page>,
    p: int,
    key: i32,
    r: Option<(i32, PageID)>,
) -> bool {
    forall|k: i32|
        k != key && g0.lo[p] <= k < g0.hi[p] ==> #[trigger] look(b0, p, k, g0.level[p]) == match r {
            None => look(b1, p, k, g0.level[p]),
            Some(sq) => if k < sq.0 {
                look(b1, p, k, g0.level[p])
            } else {
                look(b1, sq.1.0 as int, k, g0.level[p])
            },
        }
}

/// Leaf records `r` hold `k` with record id `v`.
pub open spec fn holds(r: Seq<BTreeRecord<RecordID>>, k: i32, v: RecordID) -> bool {
    exists|i: int| 0 <= i < r.len() && r[i].key == k && r[i].value == v
}

/// A sorted leaf finds under `k` exactly the record id it holds there.
proof fn lemma_leaf_find_holds(l: LeafPage, k: i32, v: RecordID)
    requires
        strictly_sorted(leaf_keys(&l)),
    ensures
        leaf_find(&l, k) == Some(v) <==> holds(l.records@, k, v),
{
    if holds(l.records@, k, v) {
        let i = choose|i: int| 0 <= i < l.records@.len() && l.records@[i].key == k && l.records@[i].value == v;
        lemma_leaf_find_at(l, i, k);
    }
    if leaf_find(&l, k) == Some(v) {
        lemma_leaf_pos(leaf_keys(&l), k, 0);
        let pos = leaf_pos(leaf_keys(&l), k, 0);
        assert(0 <= pos < l.records@.len() && l.records@[pos].key == k && l.records@[pos].value == v);
    }
}

/// Two sorted leaves holding the same record ids under `k` find the same.
proof fn lemma_leaf_find_same(l1: LeafPage, l2: LeafPage, k: i32)
    requires
        strictly_sorted(leaf_keys(&l1)),
        strictly_sorted(leaf_keys(&l2)),
        forall|v: RecordID| #[trigger] holds(l1.records@, k, v) <==> holds(l2.records@, k, v),
    ensures
        leaf_find(&l1, k) == leaf_find(&l2, k),
{
    match leaf_find(&l1, k) {
        Some(v) => {
            lemma_leaf_find_holds(l1, k, v);
            lemma_leaf_find_holds(l2, k, v);
        },
        None => {
            match leaf_find(&l2, k) {
                Some(w) => {
                    lemma_leaf_find_holds(l2, k, w);
                    lemma_leaf_find_holds(l1, k, w);
                },
                None => {},
            }
        },
    }
}

/// Storing `(key, rid)` in slot `i` leaves what the records hold under
/// other keys.
proof fn lemma_leaf_with_holds(r: Seq<BTreeRecord<RecordID>>, i: int, key: i32, rid: RecordID, k: i32, v: RecordID)
    requires
        0 <= i <= r.len(),
        k != key,
    ensures
        holds(leaf_with(r, i, key, rid), k, v) <==> holds(r, k, v),
{
    let r2 = leaf_with(r, i, key, rid);
    if holds(r, k, v) {
        let j = choose|j: int| 0 <= j < r.len() && r[j].key == k && r[j].value == v;
        if i < r.len() && r[i].key == key {
            assert(r2[j] == r[j]);
        } else if j < i {
            assert(r2[j] == r[j]);
        } else {
            assert(r2[j + 1] == r[j]);
        }
    }
    if holds(r2, k, v) {
        let j = choose|j: int| 0 <= j < r2.len() && r2[j].key == k && r2[j].value == v;
        if i < r.len() && r[i].key == key {
            assert(r[j] == r2[j]);
        } else if j < i {
            assert(r[j] == r2[j]);
        } else {
            assert(j != i);
            assert(r[j - 1] == r2[j]);
        }
    }
}

/// The two halves of a full leaf split around `rec` in slot `i` hold
/// together what the leaf held under other keys.
proof fn lemma_leaf_split_holds(
    r: Seq<BTreeRecord<RecordID>>,
    i: int,
    rec: BTreeRecord<RecordID>,
    k: i32,
    v: RecordID,
)
    requires
        r.len() == LEAF_CAPACITY,
        0 <= i <= r.len(),
        k != rec.key,
    ensures
        holds(leaf_lower(r, i, rec), k, v) || holds(leaf_upper(r, i, rec), k, v) <==> holds(r, k, v),
{
    let lower = leaf_lower(r, i, rec);
    let upper = leaf_upper(r, i, rec);
    if holds(r, k, v) {
        let j = choose|j: int| 0 <= j < r.len() && r[j].key == k && r[j].value == v;
        if i < 168 {
            if j < 168 {
                if j < i {
                    assert(lower[j] == r[j]);
                } else {
                    assert(lower[j + 1] == r[j]);
                }
            } else {
                assert(upper[j - 168] == r[j]);
            }
        } else {
            if j < 168 {
                assert(lower[j] == r[j]);
            } else if j - 168 < i - 168 {
                assert(upper[j - 168] == r[j]);
            } else {
                assert(upper[j - 167] == r[j]);
            }
        }
    }
    if holds(lower, k, v) {
        let j = choose|j: int| 0 <= j < lower.len() && lower[j].key == k && lower[j].value == v;
        if i < 168 {
            if j < i {
                assert(r[j] == lower[j]);
            } else {
                assert(j != i);
                assert(r[j - 1] == lower[j]);
            }
        } else {
            assert(r[j] == lower[j]);
        }
    }
    if holds(upper, k, v) {
        let j = choose|j: int| 0 <= j < upper.len() && upper[j].key == k && upper[j].value == v;
        if i < 168 {
            assert(r[j + 168] == upper[j]);
        } else {
            if j < i - 168 {
                assert(r[j + 168] == upper[j]);
            } else {
                assert(j != i - 168);
                assert(r[j + 167] == upper[j]);
            }
        }
    }
}

/// Routing from a page below `e` in a tree consistent but at `e` ends at a
/// leaf.
proof fn lemma_route_leaf_except(b: Seq<Page>, g: TreeGhost, e: int, x: int, k: i32)
    requires
        ok_except(b, g, e),
        0 <= x < b.len(),
        e == -1 || g.level[e] > g.level[x],
    ensures
        0 <= route(b, x, k, g.level[x]) < b.len(),
        b[route(b, x, k, g.level[x])] is LEAF,
    decreases g.level[x],
{
    assert(page_ok(b, g, x));
    if b[x] is INNER {
        let recs = b[x]->INNER_0.records@;
        lemma_child_slot(recs, k, 0);
        let c = recs[child_slot(recs, k, 0)].value.0 as int;
        assert(g.level[c] + 1 == g.level[x]);
        lemma_route_leaf_except(b, g, e, c, k);
    }
}

/// Lookups from a page below `e` are the same in `b2`, which differs from
/// `b1` only at `e` (an inner page in both) and in pages appended to it.
proof fn lemma_look_frame(b1: Seq<Page>, b2: Seq<Page>, g: TreeGhost, e: int, x: int, k: i32)
    requires
        ok_except(b1, g, e),
        0 <= e < b1.len(),
        0 <= x < b1.len(),
        g.level[e] > g.level[x],
        b1[e] is INNER,
        b2.len() >= b1.len(),
        forall|y: int| 0 <= y < b1.len() && y != e ==> #[trigger] b2[y] == b1[y],
    ensures
        look(b2, x, k, g.level[x]) == look(b1, x, k, g.level[x]),
{
    lemma_route_frame(b1, b2, g, e, x, k);
    lemma_route_leaf_except(b1, g, e, x, k);
    let l = route(b1, x, k, g.level[x]);
    assert(l != e);
    assert(b2[l] == b1[l]);
}

/// Where `k` and `key` route from the consistent inner page `p`: the slot
/// `j` of `k` has a child whose interval holds `k`, and holds `key` only
/// when `key` routes to the same slot.
proof fn lemma_other_slot(b: Seq<Page>, g: TreeGhost, p: int, key: i32, k: i32)
    requires
        ok_except(b, g, -1),
        0 <= p < b.len(),
        b[p] is INNER,
        g.lo[p] <= k < g.hi[p],
    ensures
        ({
            let recs = b[p]->INNER_0.records@;
            let j = child_slot(recs, k, 0);
            let cj = recs[j].value.0 as int;
            &&& 0 <= j < recs.len()
            &&& 0 <= cj < b.len()
            &&& g.level[cj] + 1 == g.level[p]
            &&& g.lo[cj] <= k < g.hi[cj]
            &&& g.lo[p] <= g.lo[cj]
            &&& g.hi[cj] <= g.hi[p]
            &&& j != child_slot(recs, key, 0) ==> !(g.lo[cj] <= key < g.hi[cj])
            &&& route(b, p, k, g.level[p]) == route(b, cj, k, (g.level[p] - 1) as nat)
        }),
{
    assert(page_ok(b, g, p));
    let recs = b[p]->INNER_0.records@;
    lemma_child_slot(recs, k, 0);
    let j = child_slot(recs, k, 0);
    let cj = recs[j].value.0 as int;
    assert(g.lo[cj] <= k) by {
        if j > 0 {
            assert(recs[j - 1].key <= k);
        }
    }
    assert(g.lo[p] <= g.lo[cj]) by {
        if j > 0 {
            assert(g.lo[p] < recs[j - 1].key);
        }
    }
    assert(g.hi[cj] <= g.hi[p]) by {
        if j < recs.len() - 1 {
            assert(recs[j].key < g.hi[p]);
        }
    }
    if g.lo[cj] <= key < g.hi[cj] {
        assert forall|t: int| 0 <= t < j implies (#[trigger] recs[t]).key <= key by {
            if t < j - 1 {
                assert(recs[t].key < recs[j - 1].key);
            }
        }
        lemma_child_slot_is(recs, key, j);
    }
}


/// Lookups from a page whose interval holds `k` but not `key` are the same
/// in `b1`, where only pages whose interval holds `key` changed.
proof fn lemma_look_outside(b0: Seq<Page>, g0: TreeGhost, b1: Seq<Page>, x: int, key: i32, k: i32)
    requires
        ok_except(b0, g0, -1),
        0 <= x < b0.len(),
        b1.len() >= b0.len(),
        changed_cover(b0, g0, b1, key),
        !(g0.lo[x] <= key < g0.hi[x]),
        g0.lo[x] <= k < g0.hi[x],
    ensures
        look(b1, x, k, g0.level[x]) == look(b0, x, k, g0.level[x]),
    decreases g0.level[x],
{
    reveal(changed_cover);
    assert(page_ok(b0, g0, x));
    assert(b1[x] == b0[x]);
    if b0[x] is INNER {
        lemma_other_slot(b0, g0, x, key, k);
        let recs = b0[x]->INNER_0.records@;
        let c = recs[child_slot(recs, k, 0)].value.0 as int;
        lemma_look_outside(b0, g0, b1, c, key, k);
    }
}

/// How the slots of an inner page with records `w` change when the child
/// of slot `i` is split at `sep` with `q` following it: slot `j` of `k`
/// moves one up past slot `i`, and within slot `i` the keys from `sep` on go
/// to `q`.
proof fn lemma_with_child_slots(w: Seq<BTreeRecord<PageID>>, i: int, sep: i32, q: PageID, k: i32)
    requires
        w.len() >= 1,
        0 <= i < w.len(),
        forall|t: int, u: int| 0 <= t < u < w.len() - 1 ==> (#[trigger] w[t]).key < (#[trigger] w[u]).key,
        i < w.len() - 1 ==> sep < w[i].key,
    ensures
        ({
            let j = child_slot(w, k, 0);
            let w2 = with_child(w, i, sep, q);
            let s2 = child_slot(w2, k, 0);
            &&& 0 <= j < w.len()
            &&& j < i ==> s2 == j && w2[j].value == w[j].value
            &&& j > i ==> s2 == j + 1 && w2[j + 1].value == w[j].value
            &&& j == i && k < sep ==> s2 == i && w2[i].value == w[i].value
            &&& j == i && k >= sep ==> s2 == i + 1 && w2[i + 1].value == q
        }),
{
    lemma_child_slot(w, k, 0);
    let j = child_slot(w, k, 0);
    let w2 = with_child(w, i, sep, q);
    assert forall|a: int| 0 <= a < w2.len() implies #[trigger] w2[a] == if a < i {
        w[a]
    } else if a == i {
        BTreeRecord { key: sep, value: w[i].value }
    } else if a == i + 1 {
        BTreeRecord { key: w[i].key, value: q }
    } else {
        w[a - 1]
    } by {}
    assert(w2.len() == w.len() + 1);
    if j < i {
        lemma_child_slot_is(w2, k, j);
    } else if j > i {
        assert forall|t: int| 0 <= t < j + 1 implies (#[trigger] w2[t]).key <= k by {
            if t == i {
                assert(w[i].key <= k);
            } else if t > i + 1 {
                assert(w[t - 1].key <= k);
            }
        }
        lemma_child_slot_is(w2, k, j + 1);
    } else if k < sep {
        lemma_child_slot_is(w2, k, i);
    } else {
        lemma_child_slot_is(w2, k, i + 1);
    }
}

/// Keys below slot 254's key route in the lower half of a full inner page
/// as in the whole page.
proof fn lemma_lower_slot(recs: Seq<BTreeRecord<PageID>>, k: i32)
    requires
        recs.len() == INNER_CAPACITY,
        forall|t: int, u: int| 0 <= t < u < recs.len() - 1 ==> (#[trigger] recs[t]).key < (#[trigger] recs[u]).key,
        k < recs[254].key,
    ensures
        child_slot(recs, k, 0) <= 254,
        child_slot(inner_lower(recs), k, 0) == child_slot(recs, k, 0),
        inner_lower(recs)[child_slot(recs, k, 0)] == recs[child_slot(recs, k, 0)],
{
    lemma_child_slot(recs, k, 0);
    let j = child_slot(recs, k, 0);
    let lower = inner_lower(recs);
    assert(j <= 254) by {
        if j > 254 {
            assert(recs[254].key <= k);
        }
    }
    assert(forall|a: int| 0 <= a < lower.len() ==> #[trigger] lower[a] == recs[a]);
    lemma_child_slot_is(lower, k, j);
}

/// Keys from slot 254's key on route in the upper half of a full inner
/// page as in the whole page, 255 slots down.
proof fn lemma_upper_slot(recs: Seq<BTreeRecord<PageID>>, k: i32)
    requires
        recs.len() == INNER_CAPACITY,
        forall|t: int, u: int| 0 <= t < u < recs.len() - 1 ==> (#[trigger] recs[t]).key < (#[trigger] recs[u]).key,
        recs[254].key <= k,
    ensures
        child_slot(recs, k, 0) >= 255,
        child_slot(inner_upper(recs), k, 0) == child_slot(recs, k, 0) - 255,
        inner_upper(recs)[child_slot(recs, k, 0) - 255] == recs[child_slot(recs, k, 0)],
{
    lemma_child_slot(recs, k, 0);
    let j = child_slot(recs, k, 0);
    let upper = inner_upper(recs);
    assert(j >= 255) by {
        if j <= 254 {
            if j < 254 {
                assert(recs[j].key < recs[254].key);
            }
        }
    }
    assert(forall|a: int| 0 <= a < upper.len() ==> #[trigger] upper[a] == recs[a + 255]);
    assert forall|t: int| 0 <= t < j - 255 implies (#[trigger] upper[t]).key <= k by {
        assert(upper[t] == recs[t + 255]);
    }
    lemma_child_slot_is(upper, k, j - 255);
}

/// After the child in slot `i` of `p` split at `sep` into itself and `q`,
/// and `p`'s page changed, a key `k` other than `key` finds from the page
/// of its new slot what it found from its old child.
#[verifier::rlimit(50)]
#[verifier::spinoff_prover]
proof fn lemma_child_look(
    b0: Seq<Page>,
    g0: TreeGhost,
    b1: Seq<Page>,
    g1: TreeGhost,
    b2: Seq<Page>,
    p: int,
    i: int,
    key: i32,
    rid: RecordID,
    sep: i32,
    q: PageID,
    k: i32,
)
    requires
        child_split(b0, g0, b1, g1, p, i, key, rid, sep, q),
        keeps_others(b0, g0, b1, b0[p]->INNER_0.records@[i].value.0 as int, key, Some((sep, q))),
        changed_cover(b0, g0, b2, key),
        b2.len() >= b1.len(),
        forall|y: int| 0 <= y < b1.len() && y != p ==> #[trigger] b2[y] == b1[y],
        b2[p] is INNER,
        k != key,
        g0.lo[p] <= k < g0.hi[p],
    ensures
        ({
            let recs = b0[p]->INNER_0.records@;
            let j = child_slot(recs, k, 0);
            let cj = recs[j].value.0 as int;
            let c = recs[i].value.0 as int;
            let lv = (g0.level[p] - 1) as nat;
            &&& 0 <= j < recs.len()
            &&& g0.level[p] >= 1
            &&& look(b0, p, k, g0.level[p]) == look(b0, cj, k, lv)
            &&& j != i ==> look(b2, cj, k, lv) == look(b0, cj, k, lv)
            &&& j == i && k < sep ==> look(b2, c, k, lv) == look(b0, c, k, lv)
            &&& j == i && k >= sep ==> look(b2, q.0 as int, k, lv) == look(b0, c, k, lv)
        }),
{
    let recs = b0[p]->INNER_0.records@;
    let c = recs[i].value.0 as int;
    let qi = q.0 as int;
    assert(page_ok(b0, g0, p));
    lemma_other_slot(b0, g0, p, key, k);
    let j = child_slot(recs, k, 0);
    let cj = recs[j].value.0 as int;
    if j != i {
        lemma_look_outside(b0, g0, b2, cj, key, k);
    } else {
        reveal(keeps_others);
        assert(look(b0, c, k, g0.level[c]) == if k < sep {
            look(b1, c, k, g0.level[c])
        } else {
            look(b1, qi, k, g0.level[c])
        });
        assert(g0.parent[c] == p);
        assert(g1.level[p] == g0.level[p]);
        assert(g1.level[c] == g0.level[c]);
        assert(b1[p] == b0[p]);
        if k < sep {
            lemma_look_frame(b1, b2, g1, p, c, k);
        } else {
            lemma_look_frame(b1, b2, g1, p, qi, k);
        }
    }
}

/// When the child below `p` took `key` without splitting, lookups from `p`
/// of other keys are unchanged.
#[verifier::spinoff_prover]
proof fn lemma_child_done_frame(b0: Seq<Page>, g0: TreeGhost, b1: Seq<Page>, p: int, i: int, key: i32)
    requires
        ok_except(b0, g0, -1),
        0 <= p < b0.len(),
        b0[p] is INNER,
        0 <= i < b0[p]->INNER_0.records@.len(),
        i == child_slot(b0[p]->INNER_0.records@, key, 0),
        b1[p] == b0[p],
        b1.len() >= b0.len(),
        changed_cover(b0, g0, b1, key),
        keeps_others(b0, g0, b1, b0[p]->INNER_0.records@[i].value.0 as int, key, None),
    ensures
        keeps_others(b0, g0, b1, p, key, None),
{
    let recs = b0[p]->INNER_0.records@;
    let c = recs[i].value.0 as int;
    reveal(keeps_others);
    assert forall|k: i32| k != key && g0.lo[p] <= k < g0.hi[p] implies #[trigger] look(b0, p, k, g0.level[p])
        == look(b1, p, k, g0.level[p]) by {
        lemma_other_slot(b0, g0, p, key, k);
        let j = child_slot(recs, k, 0);
        let cj = recs[j].value.0 as int;
        if j == i {
            assert(look(b0, c, k, g0.level[c]) == look(b1, c, k, g0.level[c]));
        } else {
            lemma_look_outside(b0, g0, b1, cj, key, k);
        }
    }
}

/// Pages that differ from `b1` only at `p`, which holds `key`, keep the
/// changes to `b0` at pages holding `key`.
proof fn lemma_changed_cover_at(b0: Seq<Page>, g0: TreeGhost, b1: Seq<Page>, b2: Seq<Page>, p: int, key: i32)
    requires
        changed_cover(b0, g0, b1, key),
        b1.len() >= b0.len(),
        g0.lo[p] <= key < g0.hi[p],
        forall|y: int| 0 <= y < b1.len() && y != p ==> #[trigger] b2[y] == b1[y],
    ensures
        changed_cover(b0, g0, b2, key),
{
    reveal(changed_cover);
    assert forall|x: int| 0 <= x < b0.len() && #[trigger] b2[x] != b0[x] implies g0.lo[x] <= key < g0.hi[x] by {
        if x != p {
            assert(b2[x] == b1[x]);
        }
    }
}

/// After the child in slot `i` of `p` split and `p` (which had room) took
/// the new child, lookups from `p` of other keys are unchanged.
#[verifier::rlimit(50)]
#[verifier::spinoff_prover]
proof fn lemma_insert_child_frame(
    b0: Seq<Page>,
    g0: TreeGhost,
    b1: Seq<Page>,
    g1: TreeGhost,
    b2: Seq<Page>,
    p: int,
    i: int,
    key: i32,
    rid: RecordID,
    sep: i32,
    q: PageID,
)
    requires
        child_split(b0, g0, b1, g1, p, i, key, rid, sep, q),
        changed_cover(b0, g0, b1, key),
        keeps_others(b0, g0, b1, b0[p]->INNER_0.records@[i].value.0 as int, key, Some((sep, q))),
        b2.len() == b1.len(),
        forall|y: int| 0 <= y < b1.len() && y != p ==> #[trigger] b2[y] == b1[y],
        b2[p] is INNER,
        b2[p]->INNER_0.records@ == with_child(b0[p]->INNER_0.records@, i, sep, q),
    ensures
        changed_cover(b0, g0, b2, key),
        keeps_others(b0, g0, b2, p, key, None),
{
    let recs = b0[p]->INNER_0.records@;
    let c = recs[i].value.0 as int;
    assert(page_ok(b0, g0, p));
    lemma_changed_cover_at(b0, g0, b1, b2, p, key);
    assert(i < recs.len() - 1 ==> sep < recs[i].key) by {
        assert(g0.hi[c] == slot_hi(recs, g0.hi[p], i));
    }
    reveal(keeps_others);
    assert forall|k: i32| k != key && g0.lo[p] <= k < g0.hi[p] implies #[trigger] look(b0, p, k, g0.level[p])
        == look(b2, p, k, g0.level[p]) by {
        lemma_child_look(b0, g0, b1, g1, b2, p, i, key, rid, sep, q, k);
        lemma_with_child_slots(recs, i, sep, q, k);
    }
}

/// After the child in slot `i` of the full page `p` split and `p` split in
/// turn at `kp` into itself and `q2`, lookups of other keys from the half
/// they fall in are unchanged.
#[verifier::rlimit(80)]
#[verifier::spinoff_prover]
proof fn lemma_split_inner_frame(
    b0: Seq<Page>,
    g0: TreeGhost,
    b1: Seq<Page>,
    g1: TreeGhost,
    b2: Seq<Page>,
    g2: TreeGhost,
    p: int,
    i: int,
    key: i32,
    rid: RecordID,
    sep: i32,
    q: PageID,
    kp: i32,
    q2: PageID,
)
    requires
        split_state(b0, g0, b1, g1, b2, g2, p, i, key, rid, sep, q, kp, q2),
        changed_cover(b0, g0, b1, key),
        keeps_others(b0, g0, b1, b0[p]->INNER_0.records@[i].value.0 as int, key, Some((sep, q))),
    ensures
        changed_cover(b0, g0, b2, key),
        keeps_others(b0, g0, b2, p, key, Some((kp, q2))),
{
    let recs = b0[p]->INNER_0.records@;
    let c = recs[i].value.0 as int;
    let q2i = q2.0 as int;
    let lower = inner_lower(recs);
    let upper = inner_upper(recs);
    assert(page_ok(b0, g0, p));
    lemma_changed_cover_at(b0, g0, b1, b2, p, key);
    lemma_child_slot(recs, key, 0);
    assert(forall|a: int| 0 <= a < lower.len() ==> #[trigger] lower[a] == recs[a]);
    assert(forall|a: int| 0 <= a < upper.len() ==> #[trigger] upper[a] == recs[a + 255]);
    assert(g0.lo[c] < sep < g0.hi[c]);
    assert(g0.hi[c] == slot_hi(recs, g0.hi[p], i));
    assert(g0.lo[c] == slot_lo(recs, g0.lo[p], i));
    assert(i < recs.len() - 1 ==> sep < recs[i].key);
    if sep < kp {
        assert(i <= 254) by {
            if i > 254 {
                assert(recs[254].key <= recs[i - 1].key);
            }
        }
        assert forall|t: int| 0 <= t < i implies (#[trigger] lower[t]).key <= sep by {
            if t < i - 1 {
                assert(recs[t].key < recs[i - 1].key);
            }
        }
        lemma_child_slot_is(lower, sep, i);
    } else {
        assert(i >= 255) by {
            if i <= 254 {
                if i < 254 {
                    assert(recs[i].key < recs[254].key);
                }
            }
        }
        assert forall|t: int| 0 <= t < i - 255 implies (#[trigger] upper[t]).key <= sep by {
            if t + 255 < i - 1 {
                assert(recs[t + 255].key < recs[i - 1].key);
            }
        }
        lemma_child_slot_is(upper, sep, i - 255);
    }
    reveal(keeps_others);
    assert forall|k: i32| k != key && g0.lo[p] <= k < g0.hi[p] implies #[trigger] look(b0, p, k, g0.level[p])
        == if k < kp {
        look(b2, p, k, g0.level[p])
    } else {
        look(b2, q2i, k, g0.level[p])
    } by {
        lemma_child_look(b0, g0, b1, g1, b2, p, i, key, rid, sep, q, k);
        if k < kp {
            lemma_lower_slot(recs, k);
            if sep < kp {
                lemma_with_child_slots(lower, i, sep, q, k);
            }
        } else {
            lemma_upper_slot(recs, k);
            if sep >= kp {
                lemma_with_child_slots(upper, i - 255, sep, q, k);
            }
        }
    }
}


/// Storing `(key, rid)` in leaf `p` (which had room, or held the key)
/// changes only `p` and no lookup of another key.
#[verifier::spinoff_prover]
proof fn lemma_leaf_with_frame(b0: Seq<Page>, g0: TreeGhost, b1: Seq<Page>, p: int, key: i32, rid: RecordID)
    requires
        ok_except(b0, g0, -1),
        0 <= p < b0.len(),
        b0[p] is LEAF,
        g0.lo[p] <= key < g0.hi[p],
        b1.len() == b0.len(),
        forall|y: int| 0 <= y < b0.len() && y != p ==> #[trigger] b1[y] == b0[y],
        b1[p] is LEAF,
        b1[p]->LEAF_0.records@ == leaf_with(
            b0[p]->LEAF_0.records@,
            leaf_pos(leaf_keys(&b0[p]->LEAF_0), key, 0),
            key,
            rid,
        ),
        strictly_sorted(leaf_keys(&b1[p]->LEAF_0)),
    ensures
        changed_cover(b0, g0, b1, key),
        keeps_others(b0, g0, b1, p, key, None),
{
    let old_leaf = b0[p]->LEAF_0;
    let new_leaf = b1[p]->LEAF_0;
    assert(page_ok(b0, g0, p));
    lemma_leaf_pos(leaf_keys(&old_leaf), key, 0);
    let i = leaf_pos(leaf_keys(&old_leaf), key, 0);
    reveal(changed_cover);
    reveal(keeps_others);
    assert forall|k: i32| k != key && g0.lo[p] <= k < g0.hi[p] implies #[trigger] look(b0, p, k, g0.level[p])
        == look(b1, p, k, g0.level[p]) by {
        assert forall|v: RecordID| #[trigger] holds(old_leaf.records@, k, v) <==> holds(new_leaf.records@, k, v) by {
            lemma_leaf_with_holds(old_leaf.records@, i, key, rid, k, v);
        }
        lemma_leaf_find_same(old_leaf, new_leaf, k);
    }
}

/// Splitting the full leaf `p` around the new key `key` changes only `p`;
/// other keys below `sep` are found in `p`, the others in the new leaf `q`,
/// as before.
#[verifier::spinoff_prover]
proof fn lemma_leaf_split_frame(
    b0: Seq<Page>,
    g0: TreeGhost,
    b1: Seq<Page>,
    p: int,
    key: i32,
    rid: RecordID,
    sep: i32,
    q: PageID,
)
    requires
        ok_except(b0, g0, -1),
        0 <= p < b0.len(),
        b0[p] is LEAF,
        b0[p]->LEAF_0.records@.len() == LEAF_CAPACITY,
        g0.lo[p] <= key < g0.hi[p],
        b1.len() == b0.len() + 1,
        q.0 as int == b0.len(),
        forall|y: int| 0 <= y < b0.len() && y != p ==> #[trigger] b1[y] == b0[y],
        b1[p] is LEAF,
        b1[q.0 as int] is LEAF,
        ({
            let r = b0[p]->LEAF_0.records@;
            let i = leaf_pos(leaf_keys(&b0[p]->LEAF_0), key, 0);
            let rec = BTreeRecord { key, value: rid };
            &&& b1[p]->LEAF_0.records@ == leaf_lower(r, i, rec)
            &&& b1[q.0 as int]->LEAF_0.records@ == leaf_upper(r, i, rec)
            &&& forall|j: int| 0 <= j < leaf_lower(r, i, rec).len() ==> (#[trigger] leaf_lower(r, i, rec)[j]).key < sep
            &&& forall|j: int| 0 <= j < leaf_upper(r, i, rec).len() ==> sep <= (#[trigger] leaf_upper(r, i, rec)[j]).key
        }),
        strictly_sorted(leaf_keys(&b1[p]->LEAF_0)),
        strictly_sorted(leaf_keys(&b1[q.0 as int]->LEAF_0)),
    ensures
        changed_cover(b0, g0, b1, key),
        keeps_others(b0, g0, b1, p, key, Some((sep, q))),
{
    let old_leaf = b0[p]->LEAF_0;
    let qi = q.0 as int;
    let lower_leaf = b1[p]->LEAF_0;
    let upper_leaf = b1[qi]->LEAF_0;
    let r = old_leaf.records@;
    let rec = BTreeRecord { key, value: rid };
    assert(page_ok(b0, g0, p));
    lemma_leaf_pos(leaf_keys(&old_leaf), key, 0);
    let i = leaf_pos(leaf_keys(&old_leaf), key, 0);
    reveal(changed_cover);
    reveal(keeps_others);
    assert forall|k: i32| k != key && g0.lo[p] <= k < g0.hi[p] implies #[trigger] look(b0, p, k, g0.level[p])
        == if k < sep {
        look(b1, p, k, g0.level[p])
    } else {
        look(b1, qi, k, g0.level[p])
    } by {
        if k < sep {
            assert forall|v: RecordID| #[trigger] holds(old_leaf.records@, k, v) <==> holds(
                lower_leaf.records@,
                k,
                v,
            ) by {
                lemma_leaf_split_holds(r, i, rec, k, v);
                if holds(upper_leaf.records@, k, v) {
                    let j = choose|j: int|
                        0 <= j < upper_leaf.records@.len() && upper_leaf.records@[j].key == k
                            && upper_leaf.records@[j].value == v;
                    assert(leaf_upper(r, i, rec)[j].key >= sep);
                }
            }
            lemma_leaf_find_same(old_leaf, lower_leaf, k);
        } else {
            assert forall|v: RecordID| #[trigger] holds(old_leaf.records@, k, v) <==> holds(
                upper_leaf.records@,
                k,
                v,
            ) by {
                lemma_leaf_split_holds(r, i, rec, k, v);
                if holds(lower_leaf.records@, k, v) {
                    let j = choose|j: int|
                        0 <= j < lower_leaf.records@.len() && lower_leaf.records@[j].key == k
                            && lower_leaf.records@[j].value == v;
                    assert(leaf_lower(r, i, rec)[j].key < sep);
                }
            }
            lemma_leaf_find_same(old_leaf, upper_leaf, k);
        }
    }
}

impl UniqueBPlusTree {
    /// Lookups of keys other than `key` in `t1` over `b1` find what they
    /// found in `t0` over `b0`, when the root stayed and kept the lookups
    /// of other keys.
    proof fn lemma_root_kept(t0: &Self, b0: Seq<Page>, t1: &Self, b1: Seq<Page>, key: i32)
        requires
            t0.wf(b0),
            t1.wf(b1),
            t1.root_page == t0.root_page,
            t1.ghost().level[t0.root_page.0 as int] == t0.ghost().level[t0.root_page.0 as int],
            keeps_others(b0, t0.ghost(), b1, t0.root_page.0 as int, key, None),
        ensures
            forall|k: i32| k != key ==> #[trigger] t1.maps(b1, k) == t0.maps(b0, k),
    {
        let root = t0.root_page.0 as int;
        reveal(keeps_others);
        assert forall|k: i32| k != key implies #[trigger] t1.maps(b1, k) == t0.maps(b0, k) by {
            lemma_route_leaf(b0, t0.ghost(), root, k);
            lemma_route_leaf(b1, t1.ghost(), root, k);
            assert(look(b0, root, k, t0.ghost().level[root]) == look(b1, root, k, t0.ghost().level[root]));
        }
    }

    /// As [`Self::lemma_root_kept`], when the root split at `sep` into
    /// itself and `q` under a new root `t2.root_page` appended to `b1`.
    proof fn lemma_root_split(
        t0: &Self,
        b0: Seq<Page>,
        g1: TreeGhost,
        b1: Seq<Page>,
        t2: &Self,
        b2: Seq<Page>,
        key: i32,
        sep: i32,
        q: PageID,
    )
        requires
            t0.wf(b0),
            t2.wf(b2),
            ok_except(b1, g1, -1),
            ({
                let root = t0.root_page.0 as int;
                let ni = t2.root_page.0 as int;
                let qi = q.0 as int;
                let lvl = t0.ghost().level[root];
                &&& 0 <= root < b1.len()
                &&& 0 <= qi < b1.len()
                &&& ni == b1.len()
                &&& b2.len() == b1.len() + 1
                &&& forall|y: int| 0 <= y < b1.len() ==> #[trigger] b2[y] == b1[y]
                &&& b2[ni] is INNER
                &&& b2[ni]->INNER_0.records@.len() == 2
                &&& b2[ni]->INNER_0.records@[0] == (BTreeRecord { key: sep, value: t0.root_page })
                &&& b2[ni]->INNER_0.records@[1].value == q
                &&& g1.level[root] == lvl
                &&& g1.level[qi] == lvl
                &&& t2.ghost().level[ni] == lvl + 1
            }),
            keeps_others(b0, t0.ghost(), b1, t0.root_page.0 as int, key, Some((sep, q))),
            t0.ghost().lo[t0.root_page.0 as int] == i32::MIN,
            t0.ghost().hi[t0.root_page.0 as int] == i32::MAX + 1,
        ensures
            forall|k: i32| k != key ==> #[trigger] t2.maps(b2, k) == t0.maps(b0, k),
    {
        let root = t0.root_page.0 as int;
        let ni = t2.root_page.0 as int;
        let qi = q.0 as int;
        let lvl = t0.ghost().level[root];
        let r = b2[ni]->INNER_0.records@;
        reveal(keeps_others);
        assert forall|k: i32| k != key implies #[trigger] t2.maps(b2, k) == t0.maps(b0, k) by {
            lemma_route_leaf(b0, t0.ghost(), root, k);
            let x = if k < sep { root } else { qi };
            if k < sep {
                lemma_child_slot_is(r, k, 0);
            } else {
                lemma_child_slot_is(r, k, 1);
            }
            assert(route(b2, ni, k, lvl + 1) == route(b2, x, k, lvl));
            lemma_route_frame(b1, b2, g1, -1, x, k);
            lemma_route_leaf(b1, g1, x, k);
            let l = route(b1, x, k, lvl);
            assert(b2[l] == b1[l]);
            assert(look(b0, root, k, lvl) == look(b1, x, k, lvl));
        }
    }
}


/// The right link of leaf `x` continues its key range: to a leaf whose
/// interval starts where `x`'s ends, or nowhere when `x` reaches past the
/// largest key.
pub open spec fn link_ok(b: Seq<Page>, g: TreeGhost, x: int) -> bool {
    match b[x]->LEAF_0.header.right {
        Some(y) => 0 <= y.0 < b.len() && g.level[y.0 as int] == 0 && g.lo[y.0 as int] == g.hi[x],
        None => g.hi[x] == i32::MAX + 1,
    }
}

/// The pages at level 0 are leaves with non-empty, pairwise disjoint
/// intervals, linked to their right neighbours in key order.
#[verifier::opaque]
pub open spec fn leaves_ok(b: Seq<Page>, g: TreeGhost) -> bool {
    &&& forall|x: int|
        0 <= x < b.len() && #[trigger] g.level[x] == 0 ==> b[x] is LEAF && g.lo[x] < g.hi[x] && link_ok(b, g, x)
    &&& forall|x: int, y: int|
        #![trigger g.level[x], g.level[y]]
        0 <= x < b.len() && 0 <= y < b.len() && x != y && g.level[x] == 0 && g.level[y] == 0 ==> g.hi[x]
            <= g.lo[y] || g.hi[y] <= g.lo[x]
}

/// The leaves stay as they were when no leaf, its header or its interval
/// changed and no new page is a leaf.
proof fn lemma_leaves_kept(b0: Seq<Page>, g0: TreeGhost, b1: Seq<Page>, g1: TreeGhost)
    requires
        leaves_ok(b0, g0),
        b1.len() >= b0.len(),
        forall|x: int| 0 <= x < b0.len() ==> #[trigger] g1.level[x] == g0.level[x],
        forall|x: int| b0.len() <= x < b1.len() ==> #[trigger] g1.level[x] != 0,
        forall|x: int|
            0 <= x < b0.len() && #[trigger] g0.level[x] == 0 ==> b1[x] is LEAF && b1[x]->LEAF_0.header
                == b0[x]->LEAF_0.header && g1.lo[x] == g0.lo[x] && g1.hi[x] == g0.hi[x],
    ensures
        leaves_ok(b1, g1),
{
    reveal(leaves_ok);
    assert forall|x: int| 0 <= x < b1.len() && #[trigger] g1.level[x] == 0 implies b1[x] is LEAF && g1.lo[x]
        < g1.hi[x] && link_ok(b1, g1, x) by {
        assert(x < b0.len());
        assert(g0.level[x] == 0);
        match b0[x]->LEAF_0.header.right {
            Some(y) => {
                assert(g1.level[y.0 as int] == g0.level[y.0 as int]);
            },
            None => {},
        }
    }
    assert forall|x: int, y: int|
        0 <= x < b1.len() && 0 <= y < b1.len() && x != y && #[trigger] g1.level[x] == 0 && #[trigger] g1.level[y]
            == 0 implies g1.hi[x] <= g1.lo[y] || g1.hi[y] <= g1.lo[x] by {
        assert(x < b0.len() && y < b0.len());
        assert(g0.level[x] == 0 && g0.level[y] == 0);
    }
}

/// Splitting leaf `p` at `sep` into itself and the new leaf `q` keeps the
/// leaves in order.
proof fn lemma_leaf_split_leaves(
    b0: Seq<Page>,
    g0: TreeGhost,
    b1: Seq<Page>,
    g1: TreeGhost,
    p: int,
    sep: i32,
    q: int,
)
    requires
        leaves_ok(b0, g0),
        ok_except(b0, g0, -1),
        0 <= p < b0.len(),
        b0[p] is LEAF,
        g0.lo[p] < sep < g0.hi[p],
        q == b0.len(),
        b1.len() == b0.len() + 1,
        forall|x: int| 0 <= x < b0.len() && x != p ==> #[trigger] b1[x] == b0[x],
        b1[p] is LEAF,
        b1[q] is LEAF,
        b1[p]->LEAF_0.header.right == Some(PageID(q as u32)),
        b1[q]->LEAF_0.header.right == b0[p]->LEAF_0.header.right,
        q as u32 as int == q,
        g1.level == g0.level.insert(q, 0),
        g1.lo == g0.lo.insert(q, sep as int),
        g1.hi == g0.hi.insert(p, sep as int).insert(q, g0.hi[p]),
    ensures
        leaves_ok(b1, g1),
{
    reveal(leaves_ok);
    assert(page_ok(b0, g0, p));
    assert(g0.level[p] == 0);
    assert forall|x: int| 0 <= x < b1.len() && #[trigger] g1.level[x] == 0 implies b1[x] is LEAF && g1.lo[x]
        < g1.hi[x] && link_ok(b1, g1, x) by {
        if x == q {
            match b0[p]->LEAF_0.header.right {
                Some(y) => {
                    let yi = y.0 as int;
                    assert(link_ok(b0, g0, p));
                    assert(yi != p);
                    assert(g1.level[yi] == 0);
                    assert(g1.lo[yi] == g0.lo[yi]);
                },
                None => {
                    assert(link_ok(b0, g0, p));
                },
            }
        } else if x == p {
        } else {
            assert(g0.level[x] == 0);
            assert(link_ok(b0, g0, x));
            match b0[x]->LEAF_0.header.right {
                Some(y) => {
                    assert(g1.level[y.0 as int] == g0.level[y.0 as int]);
                },
                None => {},
            }
        }
    }
    assert forall|x: int, y: int|
        0 <= x < b1.len() && 0 <= y < b1.len() && x != y && #[trigger] g1.level[x] == 0 && #[trigger] g1.level[y]
            == 0 implies g1.hi[x] <= g1.lo[y] || g1.hi[y] <= g1.lo[x] by {
        if x != q && x != p && y != q && y != p {
            assert(g0.level[x] == 0 && g0.level[y] == 0);
        } else if x == p && y != q {
            assert(g0.level[y] == 0);
        } else if y == p && x != q {
            assert(g0.level[x] == 0);
        } else if x == q && y != p {
            assert(g0.level[y] == 0);
        } else if y == q && x != p {
            assert(g0.level[x] == 0);
        }
    }
}

/// An inner page taking a new child leaves the leaves alone.
proof fn lemma_insert_child_leaves(
    b0: Seq<Page>,
    g0: TreeGhost,
    b1: Seq<Page>,
    g1: TreeGhost,
    b2: Seq<Page>,
    p: int,
    i: int,
    key: i32,
    rid: RecordID,
    sep: i32,
    q: PageID,
)
    requires
        child_split(b0, g0, b1, g1, p, i, key, rid, sep, q),
        leaves_ok(b1, g1),
        b2.len() == b1.len(),
        forall|y: int| 0 <= y < b1.len() && y != p ==> #[trigger] b2[y] == b1[y],
    ensures
        leaves_ok(b2, g1),
{
    assert(page_ok(b0, g0, p));
    assert(g1.level[p] == g0.level[p]);
    assert forall|x: int|
        0 <= x < b1.len() && #[trigger] g1.level[x] == 0 implies b2[x] is LEAF && b2[x]->LEAF_0.header
            == b1[x]->LEAF_0.header by {
        reveal(leaves_ok);
        assert(x != p);
    }
    lemma_leaves_kept(b1, g1, b2, g1);
}

/// An inner split leaves the leaves alone.
proof fn lemma_split_inner_leaves(
    b0: Seq<Page>,
    g0: TreeGhost,
    b1: Seq<Page>,
    g1: TreeGhost,
    b2: Seq<Page>,
    g2: TreeGhost,
    p: int,
    i: int,
    key: i32,
    rid: RecordID,
    sep: i32,
    q: PageID,
    kp: i32,
    q2: PageID,
)
    requires
        split_state(b0, g0, b1, g1, b2, g2, p, i, key, rid, sep, q, kp, q2),
        leaves_ok(b1, g1),
    ensures
        leaves_ok(b2, g2),
{
    assert(page_ok(b0, g0, p));
    assert(g1.level[p] == g0.level[p]);
    let q2i = q2.0 as int;
    assert forall|x: int| 0 <= x < b1.len() ==> #[trigger] g2.level[x] == g1.level[x] by {}
    assert forall|x: int|
        0 <= x < b1.len() && #[trigger] g1.level[x] == 0 implies b2[x] is LEAF && b2[x]->LEAF_0.header
            == b1[x]->LEAF_0.header && g2.lo[x] == g1.lo[x] && g2.hi[x] == g1.hi[x] by {
        reveal(leaves_ok);
        assert(x != p);
    }
    lemma_leaves_kept(b1, g1, b2, g2);
}


/// Changing the records of leaf `p` leaves the leaves in order.
proof fn lemma_leaf_with_leaves(b0: Seq<Page>, g0: TreeGhost, b1: Seq<Page>, p: int)
    requires
        leaves_ok(b0, g0),
        0 <= p < b0.len(),
        b1.len() == b0.len(),
        forall|x: int| 0 <= x < b0.len() && x != p ==> #[trigger] b1[x] == b0[x],
        b0[p] is LEAF,
        b1[p] is LEAF,
        b1[p]->LEAF_0.header == b0[p]->LEAF_0.header,
    ensures
        leaves_ok(b1, g0),
{
    assert forall|x: int|
        0 <= x < b0.len() && #[trigger] g0.level[x] == 0 implies b1[x] is LEAF && b1[x]->LEAF_0.header
            == b0[x]->LEAF_0.header by {
        reveal(leaves_ok);
    }
    lemma_leaves_kept(b0, g0, b1, g0);
}

/// A new root appended above the tree leaves the leaves in order.
proof fn lemma_new_root_leaves(b1: Seq<Page>, g1: TreeGhost, b2: Seq<Page>, g2: TreeGhost, ni: int)
    requires
        leaves_ok(b1, g1),
        ni == b1.len(),
        b2.len() == b1.len() + 1,
        forall|x: int| 0 <= x < b1.len() ==> #[trigger] b2[x] == b1[x],
        g2.level[ni] != 0,
        forall|x: int| x != ni ==> #[trigger] g2.level[x] == g1.level[x],
        forall|x: int| x != ni ==> #[trigger] g2.lo[x] == g1.lo[x],
        forall|x: int| x != ni ==> #[trigger] g2.hi[x] == g1.hi[x],
    ensures
        leaves_ok(b2, g2),
{
    assert forall|x: int|
        0 <= x < b1.len() && #[trigger] g1.level[x] == 0 implies b2[x] is LEAF && b2[x]->LEAF_0.header
            == b1[x]->LEAF_0.header && g2.lo[x] == g1.lo[x] && g2.hi[x] == g1.hi[x] by {
        reveal(leaves_ok);
    }
    assert forall|x: int| b1.len() <= x < b2.len() implies #[trigger] g2.level[x] != 0 by {}
    assert forall|x: int| 0 <= x < b1.len() implies #[trigger] g2.level[x] == g1.level[x] by {}
    lemma_leaves_kept(b1, g1, b2, g2);
}

/// `(t1, b1)` is what an insertion of `(key, rid)` into `(t0, b0)` leaves,
/// as [`UniqueBPlusTree::insert`] ensures.
pub open spec fn inserted(t0: UniqueBPlusTree, b0: Seq<Page>, t1: UniqueBPlusTree, b1: Seq<Page>, key: i32, rid: RecordID) -> bool {
    &&& t1.wf(b1)
    &&& t1.maps(b1, key) == Some(rid)
    &&& forall|k: i32| k != key ==> #[trigger] t1.maps(b1, k) == t0.maps(b0, k)
}

/// The record that the inserts `ops` leave for `k`: that of the last insert
/// of `k`, if any.
pub open spec fn last_insert(ops: Seq<(i32, RecordID)>, k: i32) -> Option<RecordID>
    decreases ops.len(),
{
    if ops.len() == 0 {
        None
    } else if ops.last().0 == k {
        Some(ops.last().1)
    } else {
        last_insert(ops.drop_last(), k)
    }
}

/// After a new tree and a sequence of inserts, a lookup of any key finds the
/// record of the last insert of that key, and nothing for a key never
/// inserted. `states[i + 1]` is the tree and pages after the `i`-th insert.
pub proof fn lemma_inserts_last_wins(states: Seq<(UniqueBPlusTree, Seq<Page>)>, ops: Seq<(i32, RecordID)>)
    requires
        states.len() == ops.len() + 1,
        forall|k: i32| #[trigger] states[0].0.maps(states[0].1, k) is None,
        forall|i: int|
            0 <= i < ops.len() ==> #[trigger] inserted(
                states[i].0,
                states[i].1,
                states[i + 1].0,
                states[i + 1].1,
                ops[i].0,
                ops[i].1,
            ),
    ensures
        forall|k: i32| #[trigger] states.last().0.maps(states.last().1, k) == last_insert(ops, k),
    decreases ops.len(),
{
    if ops.len() > 0 {
        let n = ops.len() - 1;
        let s0 = states.drop_last();
        let o0 = ops.drop_last();
        assert forall|i: int| 0 <= i < o0.len() implies #[trigger] inserted(
            s0[i].0,
            s0[i].1,
            s0[i + 1].0,
            s0[i + 1].1,
            o0[i].0,
            o0[i].1,
        ) by {
            assert(inserted(states[i].0, states[i].1, states[i + 1].0, states[i + 1].1, ops[i].0, ops[i].1));
        }
        assert(s0[0] == states[0]);
        lemma_inserts_last_wins(s0, o0);
        assert(inserted(states[n].0, states[n].1, states[n + 1].0, states[n + 1].1, ops[n].0, ops[n].1));
        assert forall|k: i32| #[trigger] states.last().0.maps(states.last().1, k) == last_insert(ops, k) by {
            assert(s0.last() == states[n]);
            if k != ops.last().0 {
                assert(s0.last().0.maps(s0.last().1, k) == last_insert(o0, k));
            }
        }
    }
}

} // verus!
