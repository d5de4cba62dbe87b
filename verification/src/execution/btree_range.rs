//! Range scans of the B+ tree: a scan walks the leaves from the leaf of the
//! smallest key along their right links, and yields exactly the record ids
//! the tree maps the keys of the range to, in key order.

use vstd::prelude::*;
use vstd::set_lib::{lemma_int_range, lemma_len_subset, set_int_range};

use super::btree::{
    inserted, last_insert, leaf_find, leaf_keys, leaf_pos, leaves_ok, lemma_inserts_last_wins, lemma_route_interval,
    lemma_route_leaf, link_ok, page_ok, strictly_sorted, BTreeRecord, Page, TreeGhost, UniqueBPlusTree,
};
use super::RecordID;

verus! {

/// The first slot of `keys` from `i` on whose key is at least `a` (the
/// number of slots when there is none).
pub open spec fn first_ge(keys: Seq<i32>, a: int, i: int) -> int
    decreases keys.len() - i,
{
    if i < 0 || i >= keys.len() {
        keys.len() as int
    } else if keys[i] >= a {
        i
    } else {
        first_ge(keys, a, i + 1)
    }
}

/// What [`first_ge`] finds: the first slot from `i` on whose key is at
/// least `a`, or the number of slots.
proof fn lemma_first_ge(keys: Seq<i32>, a: int, i: int)
    requires
        0 <= i <= keys.len(),
        forall|j: int| 0 <= j < i ==> keys[j] < a,
    ensures
        i <= first_ge(keys, a, i) <= keys.len(),
        forall|j: int| 0 <= j < first_ge(keys, a, i) ==> keys[j] < a,
        first_ge(keys, a, i) < keys.len() ==> keys[first_ge(keys, a, i)] >= a,
    decreases keys.len() - i,
{
    if i < keys.len() && keys[i] < a {
        lemma_first_ge(keys, a, i + 1);
    }
}

/// In sorted keys, [`first_ge`] divides the keys below `a` from the others.
proof fn lemma_first_ge_sorted(keys: Seq<i32>, a: int)
    requires
        strictly_sorted(keys),
    ensures
        0 <= first_ge(keys, a, 0) <= keys.len(),
        forall|j: int| 0 <= j < first_ge(keys, a, 0) ==> keys[j] < a,
        forall|j: int| first_ge(keys, a, 0) <= j < keys.len() ==> keys[j] >= a,
{
    lemma_first_ge(keys, a, 0);
    let f = first_ge(keys, a, 0);
    assert forall|j: int| f <= j < keys.len() implies keys[j] >= a by {
        if j > f {
            assert(keys[f] < keys[j]);
        }
    }
}

/// [`leaf_pos`] is [`first_ge`] on a key.
proof fn lemma_leaf_pos_first_ge(keys: Seq<i32>, key: i32, i: int)
    ensures
        leaf_pos(keys, key, i) == first_ge(keys, key as int, i),
    decreases keys.len() - i,
{
    if 0 <= i < keys.len() && keys[i] < key {
        lemma_leaf_pos_first_ge(keys, key, i + 1);
    }
}

/// The record ids of slots `j..m` of `recs`.
pub open spec fn ids_between(recs: Seq<BTreeRecord<RecordID>>, j: int, m: int) -> Seq<RecordID> {
    if j < m {
        recs.subrange(j, m).map_values(|r: BTreeRecord<RecordID>| r.value)
    } else {
        seq![]
    }
}

/// The ids of slots `j..m` are the id of slot `j` followed by those of
/// `j + 1..m`.
proof fn lemma_ids_between_step(recs: Seq<BTreeRecord<RecordID>>, j: int, m: int)
    requires
        0 <= j < m <= recs.len(),
    ensures
        ids_between(recs, j, m) == seq![recs[j].value] + ids_between(recs, j + 1, m),
{
    assert(ids_between(recs, j, m) =~= seq![recs[j].value] + ids_between(recs, j + 1, m));
}

/// The pages at level 0 whose interval starts at `lo` or later.
pub open spec fn leaves_from(b: Seq<Page>, g: TreeGhost, lo: int) -> Set<int> {
    Set::new(|y: int| 0 <= y < b.len() && g.level[y] == 0 && g.lo[y] >= lo)
}

/// There are no more such pages than pages.
proof fn lemma_leaves_from_len(b: Seq<Page>, g: TreeGhost, lo: int)
    ensures
        leaves_from(b, g, lo).finite(),
        leaves_from(b, g, lo).len() <= b.len(),
{
    lemma_int_range(0, b.len() as int);
    lemma_len_subset(leaves_from(b, g, lo), set_int_range(0, b.len() as int));
}

impl UniqueBPlusTree {
    /// The record ids the tree maps the keys `k..=ke` to, in key order.
    pub open spec fn range_from(&self, b: Seq<Page>, k: int, ke: int) -> Seq<RecordID>
        decreases ke + 1 - k,
    {
        if k > ke || k < i32::MIN || k > i32::MAX {
            seq![]
        } else {
            let rest = self.range_from(b, k + 1, ke);
            match self.maps(b, k as i32) {
                Some(r) => seq![r] + rest,
                None => rest,
            }
        }
    }

    /// A key in the interval of a page at level 0 is looked up in that
    /// page: leaf intervals do not overlap.
    proof fn lemma_leaf_unique(&self, b: Seq<Page>, x: int, k: i32)
        requires
            self.wf(b),
            0 <= x < b.len(),
            self.ghost().level[x] == 0,
            self.ghost().lo[x] <= k < self.ghost().hi[x],
        ensures
            self.leaf_of(b, k) == x,
            self.maps(b, k) == leaf_find(&b[x]->LEAF_0, k),
    {
        let g = self.ghost();
        let root = self.root_page.0 as int;
        lemma_route_interval(b, g, root, k);
        let l = self.leaf_of(b, k);
        assert(page_ok(b, g, l));
        reveal(leaves_ok);
        if l != x {
            assert(g.level[l] == 0);
            assert(g.hi[x] <= g.lo[l] || g.hi[l] <= g.lo[x]);
        }
    }

    /// The range `a..=ke` splits at `m`.
    proof fn lemma_range_split(&self, b: Seq<Page>, a: int, m: int, ke: int)
        requires
            i32::MIN <= a <= m + 1,
            m <= ke,
        ensures
            self.range_from(b, a, ke) == self.range_from(b, a, m) + self.range_from(b, m + 1, ke),
        decreases m + 1 - a,
    {
        if a == m + 1 {
            assert(self.range_from(b, a, m) == Seq::<RecordID>::empty());
            assert(self.range_from(b, a, ke) =~= self.range_from(b, a, m) + self.range_from(b, m + 1, ke));
        } else {
            self.lemma_range_split(b, a + 1, m, ke);
            if a > i32::MAX {
                assert(self.range_from(b, a, ke) == Seq::<RecordID>::empty());
                assert(self.range_from(b, a, m) == Seq::<RecordID>::empty());
                assert(self.range_from(b, m + 1, ke) == Seq::<RecordID>::empty());
                assert(self.range_from(b, a, ke) =~= self.range_from(b, a, m) + self.range_from(b, m + 1, ke));
            } else {
                let rest_k = self.range_from(b, a + 1, ke);
                let rest_m = self.range_from(b, a + 1, m);
                let tail = self.range_from(b, m + 1, ke);
                match self.maps(b, a as i32) {
                    Some(r) => {
                        assert(seq![r] + rest_k =~= (seq![r] + rest_m) + tail);
                    },
                    None => {},
                }
            }
        }
    }

    /// Within the interval of a page at level 0, the range `a..=e` is the
    /// record ids of the page's slots holding keys `a..=e`.
    proof fn lemma_range_in_leaf(&self, b: Seq<Page>, x: int, a: int, e: int)
        requires
            self.wf(b),
            0 <= x < b.len(),
            self.ghost().level[x] == 0,
            self.ghost().lo[x] <= a,
            i32::MIN <= a,
            e < self.ghost().hi[x],
            e <= i32::MAX,
        ensures
            ({
                let recs = b[x]->LEAF_0.records@;
                let keys = leaf_keys(&b[x]->LEAF_0);
                self.range_from(b, a, e) == ids_between(recs, first_ge(keys, a, 0), first_ge(keys, e + 1, 0))
            }),
        decreases e + 1 - a,
    {
        let g = self.ghost();
        reveal(leaves_ok);
        assert(page_ok(b, g, x));
        let leaf = b[x]->LEAF_0;
        let recs = leaf.records@;
        let keys = leaf_keys(&leaf);
        assert(forall|s: int| 0 <= s < recs.len() ==> #[trigger] keys[s] == recs[s].key);
        lemma_first_ge_sorted(keys, a);
        lemma_first_ge_sorted(keys, e + 1);
        let j = first_ge(keys, a, 0);
        let m = first_ge(keys, e + 1, 0);
        if a > e {
            if j < m {
                assert(keys[j] < e + 1);
            }
        } else {
            self.lemma_range_in_leaf(b, x, a + 1, e);
            lemma_first_ge_sorted(keys, a + 1);
            let j2 = first_ge(keys, a + 1, 0);
            self.lemma_leaf_unique(b, x, a as i32);
            lemma_leaf_pos_first_ge(keys, a as i32, 0);
            if j < keys.len() && keys[j] == a {
                assert(j2 == j + 1) by {
                    if j2 <= j {
                        assert(keys[j] >= a + 1);
                    }
                    if j2 > j + 1 {
                        assert(keys[j + 1] < a + 1);
                        assert(keys[j] < keys[j + 1]);
                    }
                }
                assert(j < m) by {
                    if m <= j {
                        assert(keys[j] >= e + 1);
                    }
                }
                lemma_ids_between_step(recs, j, m);
            } else {
                assert(j2 == j) by {
                    if j2 < j {
                        assert(keys[j2] < a);
                    }
                    if j2 > j {
                        assert(keys[j] < a + 1);
                    }
                }
            }
        }
    }
}

/// Scanning slots `i..` of a leaf whose keys from `i` on are at least `ks`
/// yields the ids of slots `i..m`, where `m` divides the keys up to `ke`
/// from those beyond, and stops when a slot beyond `ke` exists.
proof fn lemma_scan_leaf(recs: Seq<BTreeRecord<RecordID>>, i: int, ks: i32, ke: i32, m: int)
    requires
        0 <= i <= recs.len(),
        0 <= m <= recs.len(),
        forall|s: int| i <= s < recs.len() ==> (#[trigger] recs[s]).key >= ks,
        forall|s: int| 0 <= s < m ==> (#[trigger] recs[s]).key <= ke,
        forall|s: int| m <= s < recs.len() ==> (#[trigger] recs[s]).key > ke,
    ensures
        scan_leaf(recs, i, ks, ke).0 == ids_between(recs, i, m),
        scan_leaf(recs, i, ks, ke).1 == ((if i > m { i } else { m }) < recs.len()),
    decreases recs.len() - i,
{
    if i < recs.len() {
        if recs[i].key <= ke {
            lemma_scan_leaf(recs, i + 1, ks, ke, m);
            assert(i < m);
            lemma_ids_between_step(recs, i, m);
        }
    }
}

impl UniqueBPlusTree {
    /// Following right links from the page `x` at level 0, starting at the
    /// first slot of key `a` or more, a scan with enough fuel yields the
    /// range `a..=ke`.
    #[verifier::rlimit(50)]
    #[verifier::spinoff_prover]
    proof fn lemma_scan_chain(&self, b: Seq<Page>, x: int, a: int, ks: i32, ke: i32, fuel: nat)
        requires
            self.wf(b),
            0 <= x < b.len(),
            self.ghost().level[x] == 0,
            self.ghost().lo[x] <= a < self.ghost().hi[x],
            ks <= a,
            fuel >= leaves_from(b, self.ghost(), self.ghost().lo[x]).len(),
        ensures
            range_collect(b, x, first_ge(leaf_keys(&b[x]->LEAF_0), a, 0), ks, ke, fuel) == self.range_from(
                b,
                a,
                ke as int,
            ),
        decreases fuel,
    {
        let g = self.ghost();
        reveal(leaves_ok);
        assert(page_ok(b, g, x));
        assert(link_ok(b, g, x));
        let leaf = b[x]->LEAF_0;
        let recs = leaf.records@;
        let keys = leaf_keys(&leaf);
        let h = g.hi[x];
        assert(forall|s: int| 0 <= s < recs.len() ==> #[trigger] keys[s] == recs[s].key);
        lemma_leaves_from_len(b, g, g.lo[x]);
        let sx = leaves_from(b, g, g.lo[x]);
        assert(sx.contains(x));
        assert(sx.remove(x).len() == sx.len() - 1);
        lemma_first_ge_sorted(keys, a);
        lemma_first_ge_sorted(keys, ke + 1);
        let j = first_ge(keys, a, 0);
        let m = first_ge(keys, ke + 1, 0);
        assert forall|s: int| j <= s < recs.len() implies (#[trigger] recs[s]).key >= ks by {
            assert(keys[s] == recs[s].key);
        }
        assert forall|s: int| 0 <= s < m implies (#[trigger] recs[s]).key <= ke by {
            assert(keys[s] == recs[s].key);
        }
        assert forall|s: int| m <= s < recs.len() implies (#[trigger] recs[s]).key > ke by {
            assert(keys[s] == recs[s].key);
        }
        lemma_scan_leaf(recs, j, ks, ke, m);
        let sc = scan_leaf(recs, j, ks, ke);
        if sc.1 {
            assert(ke < h) by {
                let s = if j > m { j } else { m };
                assert(recs[s].key > ke);
            }
            self.lemma_range_in_leaf(b, x, a, ke as int);
        } else {
            if ke < h {
                self.lemma_range_in_leaf(b, x, a, ke as int);
            } else {
                lemma_first_ge_sorted(keys, h);
                assert(first_ge(keys, h, 0) == keys.len()) by {
                    let f = first_ge(keys, h, 0);
                    if f < keys.len() {
                        assert(keys[f] == recs[f].key);
                        assert(recs[f].key < h);
                    }
                }
                assert(m == keys.len()) by {
                    if m < keys.len() {
                        assert(recs[m].key > ke);
                        assert(recs[m].key < h);
                    }
                }
                self.lemma_range_in_leaf(b, x, a, h - 1);
                self.lemma_range_split(b, a, h - 1, ke as int);
            }
            match leaf.header.right {
                None => {
                    assert(self.range_from(b, h, ke as int) == Seq::<RecordID>::empty());
                },
                Some(nx) => {
                    let y = nx.0 as int;
                    assert(g.level[y] == 0);
                    assert(g.lo[y] < g.hi[y]);
                    lemma_leaves_from_len(b, g, g.lo[y]);
                    assert(leaves_from(b, g, g.lo[y]).subset_of(sx.remove(x)));
                    lemma_len_subset(leaves_from(b, g, g.lo[y]), sx.remove(x));
                    self.lemma_scan_chain(b, y, g.lo[y], ks, ke, (fuel - 1) as nat);
                    let yk = leaf_keys(&b[y]->LEAF_0);
                    assert(page_ok(b, g, y));
                    assert(first_ge(yk, g.lo[y], 0) == 0) by {
                        if yk.len() > 0 {
                            assert(yk[0] == b[y]->LEAF_0.records@[0].key);
                        }
                    }
                    if ke < h {
                        assert(self.range_from(b, g.lo[y], ke as int) == Seq::<RecordID>::empty());
                        assert(sc.0 + Seq::<RecordID>::empty() =~= sc.0);
                    }
                },
            }
        }
    }
}

/// The record ids of leaf records `from..` whose keys lie in `[ks, ke]`,
/// and whether a key beyond `ke` ended the scan.
pub open spec fn scan_leaf(recs: Seq<BTreeRecord<RecordID>>, from: int, ks: i32, ke: i32) -> (Seq<RecordID>, bool)
    decreases recs.len() - from,
{
    if from < 0 || from >= recs.len() {
        (seq![], false)
    } else if recs[from].key > ke {
        (seq![], true)
    } else {
        let rest = scan_leaf(recs, from + 1, ks, ke);
        (if recs[from].key >= ks { seq![recs[from].value] + rest.0 } else { rest.0 }, rest.1)
    }
}

/// The record ids a range scan collects from leaf `leaf` on, starting at
/// slot `from` and following right neighbours, visiting at most `fuel`
/// leaves.
pub open spec fn range_collect(b: Seq<Page>, leaf: int, from: int, ks: i32, ke: i32, fuel: nat) -> Seq<RecordID>
    decreases fuel,
{
    if fuel == 0 || !(0 <= leaf < b.len() && b[leaf] is LEAF) {
        seq![]
    } else {
        let l = b[leaf]->LEAF_0;
        let sc = scan_leaf(l.records@, from, ks, ke);
        if sc.1 {
            sc.0
        } else {
            match l.header.right {
                None => sc.0,
                Some(nx) => sc.0 + range_collect(b, nx.0 as int, 0, ks, ke, (fuel - 1) as nat),
            }
        }
    }
}

impl UniqueBPlusTree {
    /// The record ids of the keys in `[range.0, range.1]`, in key order: the
    /// leaf of `range.0` is scanned from that key on, then its right
    /// neighbours, until a key beyond `range.1` or the last leaf.
    pub fn range_lookup(&self, buffer: &Vec<Page>, range: (i32, i32)) -> (r: Vec<RecordID>)
        requires
            self.wf(buffer@),
        ensures
            r@ == self.range_from(buffer@, range.0 as int, range.1 as int),
            ({
                let l = self.leaf_of(buffer@, range.0);
                r@ == range_collect(
                    buffer@,
                    l,
                    leaf_pos(leaf_keys(&buffer@[l]->LEAF_0), range.0, 0),
                    range.0,
                    range.1,
                    buffer@.len(),
                )
            }),
    {
        if self.root_page.0 as usize >= buffer.len() {
            return Vec::new();
        }
        let (key_start, key_end) = range;
        let leaf0 = self.lookup_leaf(self.root_page, buffer, key_start);
        proof {
            lemma_route_leaf(buffer@, self.ghost(), self.root_page.0 as int, key_start);
            assert(page_ok(buffer@, self.ghost(), self.leaf_of(buffer@, key_start)));
        }
        let (start0, _) = self.optimized_bsearch_leaf(leaf0, key_start);
        let mut leaf_page = leaf0;
        let mut start_pos = start0;
        let ghost mut cur: int = self.leaf_of(buffer@, key_start);
        let mut vec: Vec<RecordID> = Vec::new();
        let mut fuel: usize = buffer.len();
        let ghost total = range_collect(buffer@, cur, start0 as int, key_start, key_end, fuel as nat);
        proof {
            assert(vec@ + range_collect(buffer@, cur, start_pos as int, key_start, key_end, fuel as nat) =~= total);
            let g = self.ghost();
            lemma_route_interval(buffer@, g, self.root_page.0 as int, key_start);
            assert(page_ok(buffer@, g, cur));
            lemma_leaf_pos_first_ge(leaf_keys(leaf0), key_start, 0);
            lemma_leaves_from_len(buffer@, g, g.lo[cur]);
            self.lemma_scan_chain(buffer@, cur, key_start as int, key_start, key_end, fuel as nat);
        }
        while fuel > 0
            invariant
                total == self.range_from(buffer@, range.0 as int, range.1 as int),
                0 <= cur < buffer@.len(),
                buffer@[cur] == Page::LEAF(*leaf_page),
                total == vec@ + range_collect(buffer@, cur, start_pos as int, key_start, key_end, fuel as nat),
                key_start == range.0,
                key_end == range.1,
                total == ({
                    let l = self.leaf_of(buffer@, range.0);
                    range_collect(
                        buffer@,
                        l,
                        leaf_pos(leaf_keys(&buffer@[l]->LEAF_0), range.0, 0),
                        range.0,
                        range.1,
                        buffer@.len(),
                    )
                }),
            decreases fuel,
        {
            let ghost before = vec@;
            let mut j = start_pos;
            let mut stop = false;
            while j < leaf_page.records.len()
                invariant_except_break
                    !stop,
                invariant
                    start_pos <= j <= leaf_page.records@.len() || (j == start_pos && start_pos >= leaf_page.records@.len()),
                    ({
                        let sc0 = scan_leaf(leaf_page.records@, start_pos as int, key_start, key_end);
                        let scj = scan_leaf(leaf_page.records@, j as int, key_start, key_end);
                        sc0.0 == (vec@.subrange(before.len() as int, vec@.len() as int)) + scj.0 && sc0.1 == scj.1
                    }),
                    vec@.subrange(0, before.len() as int) == before,
                    vec@.len() >= before.len(),
                ensures
                    ({
                        let sc0 = scan_leaf(leaf_page.records@, start_pos as int, key_start, key_end);
                        &&& sc0.0 == vec@.subrange(before.len() as int, vec@.len() as int)
                        &&& sc0.1 == stop
                    }),
                    vec@.subrange(0, before.len() as int) == before,
                    vec@.len() >= before.len(),
                decreases leaf_page.records@.len() - j,
            {
                let record = leaf_page.records[j];
                if record.key > key_end {
                    stop = true;
                    proof {
                        assert(vec@.subrange(before.len() as int, vec@.len() as int) + Seq::<RecordID>::empty()
                            == vec@.subrange(before.len() as int, vec@.len() as int));
                    }
                    break ;
                }
                if record.key >= key_start {
                    let ghost v0 = vec@;
                    vec.push(record.value);
                    proof {
                        assert(vec@.subrange(before.len() as int, vec@.len() as int) =~= v0.subrange(
                            before.len() as int,
                            v0.len() as int,
                        ).push(record.value));
                        assert(vec@.subrange(0, before.len() as int) =~= v0.subrange(0, before.len() as int));
                    }
                }
                j = j + 1;
            }
            let ghost sc = scan_leaf(leaf_page.records@, start_pos as int, key_start, key_end);
            let ghost here = range_collect(buffer@, cur, start_pos as int, key_start, key_end, fuel as nat);
            proof {
                assert(vec@ =~= before + vec@.subrange(before.len() as int, vec@.len() as int));
                assert(buffer@[cur]->LEAF_0 == *leaf_page);
                assert(vec@ =~= before + sc.0);
            }
            if stop {
                proof {
                    assert(here == sc.0);
                    assert(total =~= vec@);
                }
                return vec;
            }
            start_pos = 0;
            match leaf_page.header.right {
                None => {
                    proof {
                        assert(here == sc.0);
                        assert(total =~= vec@);
                    }
                    return vec;
                },
                Some(next_id) => {
                    let ghost nx = next_id.0 as int;
                    let ghost rest = range_collect(buffer@, nx, 0, key_start, key_end, (fuel - 1) as nat);
                    proof {
                        assert(here == sc.0 + rest);
                    }
                    if (next_id.0 as usize) < buffer.len() {
                        match &buffer[next_id.0 as usize] {
                            Page::LEAF(next_page) => {
                                proof {
                                    cur = nx;
                                    assert(vec@ + rest =~= total);
                                }
                                leaf_page = next_page;
                            },
                            Page::INNER(_) => {
                                proof {
                                    assert(rest == Seq::<RecordID>::empty());
                                    assert(total =~= vec@);
                                }
                                return vec;
                            },
                        }
                    } else {
                        proof {
                            assert(rest == Seq::<RecordID>::empty());
                            assert(total =~= vec@);
                        }
                        return vec;
                    }
                },
            }
            fuel = fuel - 1;
        }
        proof {
            assert(total =~= vec@);
        }
        vec
    }
}

/// The record ids of the keys `k..=ke` that the inserts `ops` left, in key
/// order: for each key inserted, the record of its last insert.
pub open spec fn inserted_range(ops: Seq<(i32, RecordID)>, k: int, ke: int) -> Seq<RecordID>
    decreases ke + 1 - k,
{
    if k > ke || k < i32::MIN || k > i32::MAX {
        seq![]
    } else {
        let rest = inserted_range(ops, k + 1, ke);
        match last_insert(ops, k as i32) {
            Some(r) => seq![r] + rest,
            None => rest,
        }
    }
}

proof fn lemma_range_same(t: UniqueBPlusTree, b: Seq<Page>, ops: Seq<(i32, RecordID)>, k: int, ke: int)
    requires
        forall|x: i32| #[trigger] t.maps(b, x) == last_insert(ops, x),
    ensures
        t.range_from(b, k, ke) == inserted_range(ops, k, ke),
    decreases ke + 1 - k,
{
    if !(k > ke || k < i32::MIN || k > i32::MAX) {
        lemma_range_same(t, b, ops, k + 1, ke);
        assert(t.maps(b, k as i32) == last_insert(ops, k as i32));
    }
}

/// After a new tree and a sequence of inserts, a range lookup of `[lo, hi]`
/// yields, in key order, the record of the last insert of each key of the
/// range that was inserted. `states[i + 1]` is the tree and pages after the
/// `i`-th insert.
pub proof fn lemma_range_after_inserts(
    states: Seq<(UniqueBPlusTree, Seq<Page>)>,
    ops: Seq<(i32, RecordID)>,
    lo: i32,
    hi: i32,
)
    requires
        states.len() == ops.len() + 1,
        forall|k: i32| #[trigger] states[0].0.maps(states[0].1, k) is None,
        forall|i: int|
            0 <= i < ops.len() ==> #[trigger] inserted(
                states[i].0,
                states[i].1,
                states[i + 1].0,
                states[i + 1].1,
                ops[i].0,
                ops[i].1,
            ),
    ensures
        states.last().0.range_from(states.last().1, lo as int, hi as int) == inserted_range(ops, lo as int, hi as int),
{
    lemma_inserts_last_wins(states, ops);
    lemma_range_same(states.last().0, states.last().1, ops, lo as int, hi as int);
}

} // verus!
