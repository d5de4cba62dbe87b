use lib::execution::btree::{Page, UniqueBPlusTree, LEAF_CAPACITY};
use lib::execution::kwaymerge::{is_sorted, merge, sort, KwayError, KwayPage};
use lib::execution::operator::{
    probe, BufferPool, DummyPage, EquiHashJoin, MemoryBufferPool, MemoryTable, Operator, Order, Record,
    RecordOrder, Sort, Table, TableScan, Value,
};
use lib::execution::{PageID, RecordID, SlotID};

fn rid(k: i32) -> RecordID {
    RecordID::new(PageID(k as u32), SlotID((k % 1000) as u16))
}

#[test]
fn btree_new_tree_is_empty() {
    let mut buffer: Vec<Page> = Vec::new();
    let tree = UniqueBPlusTree::new(&mut buffer);
    assert_eq!(buffer.len(), 1);
    assert_eq!(tree.root_page, PageID(0));
    assert_eq!(tree.lookup(&buffer, 0), None);
    assert_eq!(tree.lookup(&buffer, i32::MIN), None);
    assert!(tree.range_lookup(&buffer, (i32::MIN, i32::MAX)).is_empty());
}

#[test]
fn btree_lookup_after_insert() {
    let mut buffer: Vec<Page> = Vec::new();
    let mut tree = UniqueBPlusTree::new(&mut buffer);
    tree.insert(&mut buffer, 69, RecordID::new(PageID(69), SlotID(0)));
    assert_eq!(tree.lookup(&buffer, 69), Some(RecordID::new(PageID(69), SlotID(0))));
    assert_eq!(tree.lookup(&buffer, 70), None);
}

#[test]
fn btree_insert_overwrites_existing_key() {
    let mut buffer: Vec<Page> = Vec::new();
    let mut tree = UniqueBPlusTree::new(&mut buffer);
    tree.insert(&mut buffer, 5, rid(1));
    tree.insert(&mut buffer, 5, rid(2));
    assert_eq!(tree.lookup(&buffer, 5), Some(rid(2)));
    assert_eq!(tree.range_lookup(&buffer, (0, 10)), vec![rid(2)]);
}

#[test]
fn btree_leaf_splits_keep_all_keys() {
    let mut buffer: Vec<Page> = Vec::new();
    let mut tree = UniqueBPlusTree::new(&mut buffer);
    let n: i32 = 5000;
    // descending order: every insertion lands in the leftmost leaf
    for k in (0..n).rev() {
        tree.insert(&mut buffer, k * 2, rid(k));
    }
    assert!(buffer.len() > n as usize / LEAF_CAPACITY);
    for k in 0..n {
        assert_eq!(tree.lookup(&buffer, k * 2), Some(rid(k)));
        assert_eq!(tree.lookup(&buffer, k * 2 + 1), None);
    }
    assert_eq!(tree.lookup(&buffer, -1), None);
}

#[test]
fn btree_inner_splits_keep_all_keys() {
    let mut buffer: Vec<Page> = Vec::new();
    let mut tree = UniqueBPlusTree::new(&mut buffer);
    let n: i64 = 120_000;
    // a scrambled order of 0..n
    for i in 0..n {
        let k = ((i * 7919) % n) as i32;
        tree.insert(&mut buffer, k, rid(k));
    }
    assert!(matches!(buffer[tree.root_page.0 as usize], Page::INNER(_)));
    for k in (0..n as i32).step_by(97) {
        assert_eq!(tree.lookup(&buffer, k), Some(rid(k)));
    }
    assert_eq!(tree.lookup(&buffer, n as i32), None);
    let all = tree.range_lookup(&buffer, (0, n as i32));
    assert_eq!(all.len(), n as usize);
    for (i, r) in all.iter().enumerate() {
        assert_eq!(*r, rid(i as i32));
    }
}

#[test]
fn btree_range_lookup_in_key_order() {
    let mut buffer: Vec<Page> = Vec::new();
    let mut tree = UniqueBPlusTree::new(&mut buffer);
    for k in [50, 10, 40, 20, 30, -5] {
        tree.insert(&mut buffer, k, rid(k.abs()));
    }
    assert_eq!(tree.range_lookup(&buffer, (15, 45)), vec![rid(20), rid(30), rid(40)]);
    assert_eq!(tree.range_lookup(&buffer, (20, 20)), vec![rid(20)]);
    assert_eq!(tree.range_lookup(&buffer, (-10, 10)), vec![rid(5), rid(10)]);
    assert!(tree.range_lookup(&buffer, (41, 49)).is_empty());
    assert!(tree.range_lookup(&buffer, (45, 15)).is_empty());
}

#[test]
fn btree_range_lookup_crosses_leaves() {
    let mut buffer: Vec<Page> = Vec::new();
    let mut tree = UniqueBPlusTree::new(&mut buffer);
    for k in 0..2000 {
        tree.insert(&mut buffer, k, rid(k));
    }
    let r = tree.range_lookup(&buffer, (300, 1700));
    assert_eq!(r.len(), 1401);
    assert_eq!(r[0], rid(300));
    assert_eq!(r[1400], rid(1700));
}

fn page_of(values: &[i32]) -> KwayPage {
    let mut p = KwayPage::new(PageID(0));
    for (i, v) in values.iter().enumerate() {
        p.update(*v, i).unwrap();
    }
    p.length = values.len();
    p
}

fn contents(pages: &[KwayPage]) -> Vec<i32> {
    let mut v = Vec::new();
    for p in pages {
        v.extend_from_slice(&p.records[..p.len()]);
    }
    v
}

#[test]
fn kway_page_update_bounds() {
    let mut p = KwayPage::new(PageID(3));
    assert_eq!(p.len(), 0);
    assert_eq!(p.update(7, 9), Ok(()));
    assert_eq!(p.records[9], 7);
    assert_eq!(p.update(7, 10), Err(KwayError::SlotOutOfRange));
    assert_eq!(p.len(), 0);
    assert_eq!(p.id, PageID(3));
}

#[test]
fn kway_is_sorted_reads_across_pages() {
    assert!(is_sorted(&[page_of(&[1, 2, 3]), page_of(&[3, 4])]));
    assert!(!is_sorted(&[page_of(&[1, 5]), page_of(&[4, 6])]));
    assert!(!is_sorted(&[page_of(&[2, 1])]));
    assert!(is_sorted(&[]));
}

#[test]
fn kway_sort_single_page() {
    let input = [page_of(&[5, 4, 1, 7])];
    let mut output = [KwayPage::new(PageID(0))];
    sort(3, &input, &mut output);
    assert_eq!(contents(&output), vec![1, 4, 5, 7]);
    assert_eq!(output[0].len(), 4);
}

#[test]
fn kway_sort_running_example() {
    let input: Vec<KwayPage> = [5, 4, 1, 7, 15, 4, 9, 12, 8, 2, 6, 5].iter().map(|v| page_of(&[*v])).collect();
    let mut output: Vec<KwayPage> = (0..12).map(|i| KwayPage::new(PageID(i))).collect();
    sort(3, &input, &mut output);
    assert_eq!(contents(&output), vec![1, 2, 4, 4, 5, 5, 6, 7, 8, 9, 12, 15]);
    assert!(is_sorted(&output));
}

#[test]
fn kway_sort_full_pages_fill_output_in_order() {
    let mut input = Vec::new();
    let mut all = Vec::new();
    for p in 0..7 {
        let vals: Vec<i32> = (0..10).map(|i| ((p * 37 + i * 11) % 53) as i32 - 20).collect();
        all.extend_from_slice(&vals);
        input.push(page_of(&vals));
    }
    let mut output: Vec<KwayPage> = (0..7).map(|i| KwayPage::new(PageID(i))).collect();
    sort(2, &input, &mut output);
    all.sort();
    assert_eq!(contents(&output), all);
    for p in &output {
        assert_eq!(p.len(), 10);
    }
}

#[test]
fn kway_sort_partial_pages() {
    let input = [page_of(&[9, 3]), page_of(&[8]), page_of(&[1, 2, 7]), page_of(&[0, 4])];
    let mut output: Vec<KwayPage> = (0..4).map(|i| KwayPage::new(PageID(i))).collect();
    sort(4, &input, &mut output);
    let mut expected = vec![9, 3, 8, 1, 2, 7, 0, 4];
    expected.sort();
    assert_eq!(contents(&output), expected);
    assert!(is_sorted(&output));
}

#[test]
fn kway_merge_two_runs() {
    let input = [page_of(&[1, 4]), page_of(&[6]), page_of(&[2, 3]), page_of(&[5, 7])];
    let mut output: Vec<KwayPage> = (0..4).map(|i| KwayPage::new(PageID(i))).collect();
    let mut starts = vec![Some(0), Some(2)];
    let _states = merge(&mut starts, 2, &input, &mut output);
    assert_eq!(contents(&output), vec![1, 2, 3, 4, 5, 6, 7]);
}

fn int_row(vals: &[i32]) -> Record {
    Record::from(vals.iter().map(|v| Value::Int(*v)).collect())
}

fn ints(r: &Record) -> Vec<i32> {
    r.record
        .iter()
        .map(|v| match v {
            Value::Int(i) => *i,
            _ => panic!("not an int"),
        })
        .collect()
}

fn dummy_page(rows: &[&[i32]]) -> DummyPage {
    DummyPage { records: rows.iter().map(|r| int_row(r)).collect(), length: rows.len() }
}

fn scan_of(pages: Vec<DummyPage>, ids: Vec<u32>) -> TableScan<MemoryTable, MemoryBufferPool> {
    TableScan::new(MemoryTable::new(ids.into_iter().map(PageID).collect()), MemoryBufferPool::new(pages))
}

fn drain<O: Operator>(op: &mut O) -> Vec<Vec<i32>> {
    let mut out = Vec::new();
    while let Some(r) = op.next() {
        out.push(ints(&r));
    }
    out
}

#[test]
fn record_get_len_copy() {
    let r = Record::from(vec![Value::Int(1), Value::Varchar("a".to_string()), Value::Bool(true)]);
    assert_eq!(r.len(), 3);
    assert!(matches!(r.get(1), Value::Varchar(s) if s == "a"));
    let c = r.copy();
    assert_eq!(c.len(), 3);
    assert!(matches!(c.get(2), Value::Bool(true)));
    assert!(Value::Int(4).equals(&Value::Int(4)));
    assert!(!Value::Int(4).equals(&Value::Bool(true)));
}

#[test]
fn memory_table_and_pool() {
    let t = MemoryTable::new(vec![PageID(1), PageID(0)]);
    assert_eq!(t.page_list(), vec![PageID(1), PageID(0)]);
    let mut b = MemoryBufferPool::new(vec![dummy_page(&[&[1]]), dummy_page(&[&[2], &[3]])]);
    let p = b.pin(PageID(1));
    assert_eq!(p.length, 2);
    assert_eq!(ints(&p.records[1]), vec![3]);
    b.unpin(p);
}

#[test]
fn table_scan_reads_pages_in_table_order() {
    let pages = vec![dummy_page(&[&[1, 10], &[2, 20]]), dummy_page(&[&[4, 40]]), dummy_page(&[&[3, 30]])];
    let mut scan = scan_of(pages, vec![2, 1, 0]);
    scan.open();
    assert_eq!(drain(&mut scan), vec![vec![3, 30], vec![4, 40], vec![1, 10], vec![2, 20]]);
    assert!(scan.next().is_none());
    scan.close();
}

#[test]
fn table_scan_passes_over_empty_pages() {
    let pages = vec![dummy_page(&[&[1]]), dummy_page(&[]), dummy_page(&[]), dummy_page(&[&[2], &[3]])];
    let mut scan = scan_of(pages, vec![0, 1, 2, 3]);
    scan.open();
    assert_eq!(drain(&mut scan), vec![vec![1], vec![2], vec![3]]);
    assert!(scan.next().is_none());
    scan.close();
}

#[test]
fn table_scan_of_empty_table() {
    let mut scan = scan_of(vec![], vec![]);
    scan.open();
    assert!(scan.next().is_none());
    scan.close();
}

struct ByFirstColumn;

impl RecordOrder for ByFirstColumn {
    fn ordering(&self, a: Record, b: Record) -> Order {
        self.compare(&a, &b)
    }

    fn compare(&self, a: &Record, b: &Record) -> Order {
        let (x, y) = (ints(a)[0], ints(b)[0]);
        if x < y {
            Order::Less
        } else if x == y {
            Order::Equal
        } else {
            Order::Greater
        }
    }
}

#[test]
fn sort_emits_rows_in_ascending_order() {
    let pages = vec![dummy_page(&[&[3, 0], &[1, 1], &[2, 2], &[1, 3]])];
    let mut s = Sort::new(scan_of(pages, vec![0]), ByFirstColumn);
    s.open();
    let rows = drain(&mut s);
    let firsts: Vec<i32> = rows.iter().map(|r| r[0]).collect();
    assert_eq!(firsts, vec![1, 1, 2, 3]);
    let mut seconds: Vec<i32> = rows.iter().map(|r| r[1]).collect();
    seconds.sort();
    assert_eq!(seconds, vec![0, 1, 2, 3]);
    s.close();
}

#[test]
fn probe_takes_last_matching_build_row() {
    let build = vec![(Value::Int(1), int_row(&[1, 100])), (Value::Int(1), int_row(&[1, 200]))];
    let joined = probe(&build, &int_row(&[7, 1]), 1).unwrap();
    assert_eq!(ints(&joined), vec![1, 200, 7, 1]);
    assert!(probe(&build, &int_row(&[7, 2]), 1).is_none());
    assert!(probe(&build, &int_row(&[7]), 1).is_none());
}

#[test]
fn equi_hash_join_matches_keys() {
    let left = scan_of(vec![dummy_page(&[&[1, 10], &[2, 20], &[3, 30]])], vec![0]);
    let right = scan_of(vec![dummy_page(&[&[2, 200], &[4, 400], &[1, 100]])], vec![0]);
    let mut j = EquiHashJoin::new(left, right, 0, 0);
    j.open();
    assert_eq!(drain(&mut j), vec![vec![2, 20, 2, 200], vec![1, 10, 1, 100]]);
    j.close();
}

#[test]
fn btree_insert_keeps_other_keys() {
    let mut buffer: Vec<Page> = Vec::new();
    let mut tree = UniqueBPlusTree::new(&mut buffer);
    for k in 0..1000 {
        tree.insert(&mut buffer, k * 3, rid(k));
    }
    tree.insert(&mut buffer, 300, rid(999));
    tree.insert(&mut buffer, 301, rid(998));
    assert_eq!(tree.lookup(&buffer, 300), Some(rid(999)));
    assert_eq!(tree.lookup(&buffer, 301), Some(rid(998)));
    for k in 0..1000 {
        if k * 3 != 300 {
            assert_eq!(tree.lookup(&buffer, k * 3), Some(rid(k)));
        }
    }
    assert_eq!(tree.lookup(&buffer, 302), None);
}
