use lib::distributed::dist_operator::{
    create_asymmetric_repartitioning_join, create_replication_distribution, create_replication_join,
    create_repartitioning_distribution, create_semi_join_reduction_left, create_symmetric_repartitioning_join,
    Distribution, Exchange, JoinPlan, Side,
};
use lib::distributed::index::bitmap::{and_into, and_not_into, full_bitmap, or_into, or_masked, set_row, zero_bitmap};
use lib::distributed::index::decomposed_bitmap_index::DecomposedBitmapIndex;
use lib::distributed::index::index_iterator::IndexIterator;
use lib::distributed::index::naive_bitmap_index::NaiveBitmapIndex;
use lib::distributed::index::range_encoded_bitmap_index::RangeEncodedBitmapIndex;
use lib::distributed::locking::lock_table::BasicLockTable;
use lib::distributed::locking::multi_granularity_locking::{MGLLock, MGLNode, MultiGranularityLockTree};
use lib::distributed::locking::{BasicLockResult, LockRequest, LockingError};
use lib::distributed::{value_less_eq, DummyTable, RowID, Value};

#[test]
fn lock_table_shared_and_exclusive() {
    let mut t = BasicLockTable::new();
    assert!(t.get_state(RowID(1)).is_none());
    assert_eq!(t.lock(1, RowID(1), LockRequest::Read), Ok(BasicLockResult::Granted));
    assert_eq!(t.lock(2, RowID(1), LockRequest::Read), Ok(BasicLockResult::Granted));
    assert_eq!(t.lock(3, RowID(1), LockRequest::Write), Ok(BasicLockResult::Queued));
    assert_eq!(t.lock(1, RowID(1), LockRequest::Read), Err(LockingError::LockAlreadyHeld));
    let st = t.get_state(RowID(1)).unwrap();
    assert_eq!(st.readers.len(), 2);
    assert_eq!(st.writer, None);
    assert_eq!(st.queue.len(), 1);
    assert_eq!(t.release(1, RowID(1)), Ok(vec![]));
    assert_eq!(t.release(2, RowID(1)), Ok(vec![(3, LockRequest::Write)]));
    assert_eq!(t.get_state(RowID(1)).unwrap().writer, Some(3));
    assert!(t.get_state(RowID(1)).unwrap().queue.is_empty());
}

#[test]
fn lock_table_upgrade_of_sole_reader() {
    let mut t = BasicLockTable::new();
    assert_eq!(t.lock(1, RowID(5), LockRequest::Read), Ok(BasicLockResult::Granted));
    assert_eq!(t.lock(1, RowID(5), LockRequest::Write), Ok(BasicLockResult::Granted));
    let st = t.get_state(RowID(5)).unwrap();
    assert!(st.readers.is_empty());
    assert_eq!(st.writer, Some(1));
    assert_eq!(t.lock(1, RowID(5), LockRequest::Write), Err(LockingError::LockAlreadyHeld));
    assert_eq!(t.lock(1, RowID(5), LockRequest::Read), Err(LockingError::LockAlreadyHeld));
}

#[test]
fn lock_table_release_errors() {
    let mut t = BasicLockTable::new();
    assert_eq!(t.release(1, RowID(0)), Err(LockingError::LockNotHeld));
    t.lock(1, RowID(0), LockRequest::Write).unwrap();
    assert_eq!(t.release(2, RowID(0)), Err(LockingError::LockNotHeld));
    assert_eq!(t.release(1, RowID(0)), Ok(vec![]));
    assert_eq!(t.release(1, RowID(0)), Err(LockingError::LockNotHeld));
}

#[test]
fn lock_table_release_grants_queue_prefix() {
    let mut t = BasicLockTable::new();
    t.lock(1, RowID(2), LockRequest::Write).unwrap();
    assert_eq!(t.lock(2, RowID(2), LockRequest::Read), Ok(BasicLockResult::Queued));
    assert_eq!(t.lock(3, RowID(2), LockRequest::Read), Ok(BasicLockResult::Queued));
    assert_eq!(t.lock(4, RowID(2), LockRequest::Write), Ok(BasicLockResult::Queued));
    assert_eq!(t.lock(5, RowID(2), LockRequest::Read), Ok(BasicLockResult::Queued));
    assert_eq!(t.release(1, RowID(2)), Ok(vec![(2, LockRequest::Read), (3, LockRequest::Read)]));
    let st = t.get_state(RowID(2)).unwrap();
    assert_eq!(st.readers.len(), 2);
    assert_eq!(st.queue.len(), 2);
}

#[test]
fn lock_table_waiting_writer_holds_up_later_readers() {
    let mut t = BasicLockTable::new();
    assert_eq!(t.lock(1, RowID(0), LockRequest::Read), Ok(BasicLockResult::Granted));
    assert_eq!(t.lock(2, RowID(0), LockRequest::Write), Ok(BasicLockResult::Queued));
    assert_eq!(t.lock(3, RowID(0), LockRequest::Read), Ok(BasicLockResult::Queued));
    let q: Vec<(u64, LockRequest)> = t.get_state(RowID(0)).unwrap().queue.iter().cloned().collect();
    assert_eq!(q, vec![(2, LockRequest::Write), (3, LockRequest::Read)]);
    assert_eq!(t.release(1, RowID(0)), Ok(vec![(2, LockRequest::Write)]));
    assert_eq!(t.release(2, RowID(0)), Ok(vec![(3, LockRequest::Read)]));
}

#[test]
fn lock_table_read_then_upgrade_reported_once() {
    let mut t = BasicLockTable::new();
    t.lock(1, RowID(3), LockRequest::Write).unwrap();
    t.lock(2, RowID(3), LockRequest::Read).unwrap();
    t.lock(2, RowID(3), LockRequest::Write).unwrap();
    assert_eq!(t.release(1, RowID(3)), Ok(vec![(2, LockRequest::Write)]));
    assert_eq!(t.get_state(RowID(3)).unwrap().writer, Some(2));
}

fn node(children: Vec<(&str, MGLNode)>) -> MGLNode {
    MGLNode { locks: vec![], children: children.into_iter().map(|(n, c)| (n.to_string(), c)).collect() }
}

fn database() -> MultiGranularityLockTree {
    let table = node(vec![("row1", node(vec![])), ("row2", node(vec![]))]);
    MultiGranularityLockTree::new(node(vec![("db", node(vec![("table", table)]))]))
}

fn path(p: &[&str]) -> Vec<String> {
    p.iter().map(|s| s.to_string()).collect()
}

#[test]
fn mgl_lock_sets_intentions_along_path() {
    let mut t = database();
    let r = t.lock(1, path(&["db", "table", "row1"]), LockRequest::Write);
    assert_eq!(r, vec![MGLLock::IntentionWrite, MGLLock::IntentionWrite, MGLLock::Write]);
    assert_eq!(t.get_state(&path(&["db"])).locks, vec![(1, MGLLock::IntentionWrite)]);
    assert_eq!(t.get_state(&path(&["db", "table", "row1"])).locks, vec![(1, MGLLock::Write)]);
    assert!(t.get_state(&path(&["db", "table", "row2"])).locks.is_empty());
    let r = t.lock(2, path(&["db", "table", "row2"]), LockRequest::Read);
    assert_eq!(r, vec![MGLLock::IntentionRead, MGLLock::IntentionRead, MGLLock::Read]);
    assert_eq!(t.get_state(&path(&["db", "table"])).locks.len(), 2);
}

#[test]
fn mgl_denied_lock_grants_nothing() {
    let mut t = database();
    t.lock(1, path(&["db", "table", "row1"]), LockRequest::Write);
    let r = t.lock(3, path(&["db", "table"]), LockRequest::Write);
    assert_eq!(r, vec![MGLLock::IntentionWrite, MGLLock::Denied]);
    assert_eq!(t.get_state(&path(&["db"])).locks, vec![(1, MGLLock::IntentionWrite)]);
    let r = t.lock(4, path(&["db", "table", "row1"]), LockRequest::Read);
    assert_eq!(r, vec![MGLLock::IntentionRead, MGLLock::IntentionRead, MGLLock::Denied]);
    assert_eq!(t.get_state(&path(&["db", "table"])).locks, vec![(1, MGLLock::IntentionWrite)]);
}

#[test]
fn mgl_release_clears_every_root_child() {
    let mut t = MultiGranularityLockTree::new(node(vec![("a", node(vec![])), ("b", node(vec![]))]));
    assert_eq!(t.lock(1, path(&["a"]), LockRequest::Read), vec![MGLLock::Read]);
    assert_eq!(t.lock(1, path(&["b"]), LockRequest::Read), vec![MGLLock::Read]);
    assert_eq!(t.release(1), Ok(()));
    assert!(t.get_state(&path(&["a"])).locks.is_empty());
    assert!(t.get_state(&path(&["b"])).locks.is_empty());
}

#[test]
fn mgl_release_drops_all_locks_of_transaction() {
    let mut t = database();
    t.lock(1, path(&["db", "table", "row1"]), LockRequest::Read);
    t.lock(2, path(&["db", "table", "row2"]), LockRequest::Read);
    assert_eq!(t.release(1), Ok(()));
    assert_eq!(t.get_state(&path(&["db"])).locks, vec![(2, MGLLock::IntentionRead)]);
    assert!(t.get_state(&path(&["db", "table", "row1"])).locks.is_empty());
    assert_eq!(t.release(1), Err(LockingError::LockNotHeld));
    assert_eq!(t.release(7), Err(LockingError::LockNotHeld));
}

fn table_of(keys: &[Value]) -> DummyTable {
    DummyTable { records: keys.iter().map(|k| vec![Value::Int(0), *k]).collect() }
}

fn rows(mut it: IndexIterator) -> Vec<usize> {
    it.collect_rows().iter().map(|r| r.0).collect()
}

#[test]
fn value_order_by_variant_then_payload() {
    assert!(value_less_eq(&Value::Int(3), &Value::Int(3)));
    assert!(!value_less_eq(&Value::Int(4), &Value::Int(3)));
    assert!(value_less_eq(&Value::Int(100), &Value::UInt(0)));
    assert!(value_less_eq(&Value::UInt(9), &Value::RowID(RowID(0))));
    assert!(!value_less_eq(&Value::RowID(RowID(0)), &Value::Int(-5)));
}

#[test]
fn bitmap_helpers() {
    let mut a = zero_bitmap(2);
    assert_eq!(a, vec![0, 0]);
    set_row(&mut a, 0);
    set_row(&mut a, 9);
    assert_eq!(a, vec![0b0000_0001, 0b0000_0010]);
    assert_eq!(full_bitmap(1), vec![0xff]);
    let mut b = vec![0b1010_0000, 0];
    or_into(&mut b, &a);
    assert_eq!(b, vec![0b1010_0001, 0b10]);
    and_into(&mut b, &vec![0b1000_0001, 0xff]);
    assert_eq!(b, vec![0b1000_0001, 0b10]);
    and_not_into(&mut b, &vec![0b1000_0000, 0]);
    assert_eq!(b, vec![0b0000_0001, 0b10]);
    let mut c = vec![0u8];
    or_masked(&mut c, &vec![0b1111_0000], &vec![0b0011_1100]);
    assert_eq!(c, vec![0b0011_0000]);
}

#[test]
fn index_iterator_walks_set_rows() {
    let mut it = IndexIterator::new(vec![0b1000_0010, 0b0000_0001]);
    assert_eq!(it.next(), Some(RowID(1)));
    assert_eq!(it.next(), Some(RowID(7)));
    assert_eq!(it.next(), Some(RowID(8)));
    assert_eq!(it.next(), None);
    assert_eq!(it.next(), None);
    assert!(rows(IndexIterator::new(vec![0, 0])).is_empty());
}

#[test]
fn naive_index_range_lookup() {
    let keys: Vec<Value> = [5, 1, 9, 5, 3, 7, 1, 8, 2, 6].iter().map(|k| Value::Int(*k)).collect();
    let idx = NaiveBitmapIndex::new(&table_of(&keys), 1);
    assert_eq!(rows(idx.range_lookup(Value::Int(3), Value::Int(6))), vec![0, 3, 4, 9]);
    assert_eq!(rows(idx.range_lookup(Value::Int(1), Value::Int(1))), vec![1, 6]);
    assert!(rows(idx.range_lookup(Value::Int(10), Value::Int(20))).is_empty());
    assert!(rows(idx.range_lookup(Value::Int(6), Value::Int(3))).is_empty());
}

#[test]
fn range_encoded_index_range_lookup() {
    let keys: Vec<Value> = [5, 1, 9, 5, 3, 7, 1, 8, 2, 6].iter().map(|k| Value::Int(*k)).collect();
    let idx = RangeEncodedBitmapIndex::new(&table_of(&keys), 1);
    assert_eq!(rows(idx.range_lookup(Value::Int(3), Value::Int(6))), vec![0, 3, 4, 9]);
    assert_eq!(rows(idx.range_lookup(Value::Int(0), Value::Int(2))), vec![1, 6, 8]);
    assert_eq!(rows(idx.range_lookup(Value::Int(7), Value::Int(8))), vec![5, 7]);
    assert_eq!(rows(idx.range_lookup(Value::Int(8), Value::Int(9))), vec![2, 7]);
    assert_eq!(rows(idx.range_lookup(Value::Int(9), Value::Int(40))), vec![2]);
    assert!(rows(idx.range_lookup(Value::Int(10), Value::Int(20))).is_empty());
    assert!(rows(idx.range_lookup(Value::Int(6), Value::Int(3))).is_empty());
    assert!(rows(idx.range_lookup(Value::Int(4), Value::Int(4))).is_empty());
}

#[test]
fn decomposed_index_range_lookup() {
    let keys: Vec<Value> = [17, 3, 24, 0, 11, 24, 8, 5].iter().map(|k| Value::UInt(*k)).collect();
    let table = table_of(&keys);
    let base = DecomposedBitmapIndex::determine_optimal_base(&table, 1, 24);
    assert_eq!(base, 5);
    let idx = DecomposedBitmapIndex::new(&table, 1, base, 24);
    assert_eq!(rows(idx.range_lookup(Value::UInt(5), Value::UInt(17))), vec![0, 4, 6, 7]);
    assert_eq!(rows(idx.range_lookup(Value::UInt(0), Value::UInt(24))), vec![0, 1, 2, 3, 4, 5, 6, 7]);
    assert_eq!(rows(idx.range_lookup(Value::UInt(24), Value::UInt(24))), vec![2, 5]);
    assert!(rows(idx.range_lookup(Value::UInt(12), Value::UInt(16))).is_empty());
    let idx2 = DecomposedBitmapIndex::new(&table, 1, 2, 24);
    assert_eq!(rows(idx2.range_lookup(Value::UInt(3), Value::UInt(8))), vec![1, 6, 7]);
}

#[test]
fn distributions_route_records() {
    let rep = create_repartitioning_distribution(1);
    assert_eq!(rep, Distribution::Repartition { join_key: 1 });
    assert_eq!(rep.targets(&vec![Value::Int(0), Value::Int(7)], 3), vec![1]);
    assert_eq!(rep.targets(&vec![Value::Int(0), Value::Int(-7)], 3), vec![2]);
    let all = create_replication_distribution();
    assert_eq!(all, Distribution::Replicate);
    assert_eq!(all.targets(&vec![Value::Int(0)], 4), vec![0, 1, 2, 3]);
}

#[test]
fn exchange_dispatch_keeps_local_records() {
    let e = Exchange::new(2, create_replication_distribution());
    let d = e.dispatch(&vec![Value::Int(1)], 4);
    assert_eq!(d.remote, vec![0, 1, 3]);
    assert!(d.local);
    let e = Exchange::new(0, create_repartitioning_distribution(0));
    let d = e.dispatch(&vec![Value::Int(5)], 2);
    assert_eq!(d.remote, vec![1]);
    assert!(!d.local);
    let d = e.dispatch(&vec![Value::Int(4)], 2);
    assert!(d.remote.is_empty());
    assert!(d.local);
}

fn is_input(p: &JoinPlan, side: Side) -> bool {
    matches!(p, JoinPlan::Input(s) if *s == side)
}

#[test]
fn join_plan_shapes() {
    match create_symmetric_repartitioning_join(1, 2) {
        JoinPlan::EquiHashJoinLeft { left, right, left_key: 1, right_key: 2 } => {
            assert!(matches!(&*left, JoinPlan::Exchange { input, distribution: Distribution::Repartition { join_key: 1 } } if is_input(input, Side::Left)));
            assert!(matches!(&*right, JoinPlan::Exchange { input, distribution: Distribution::Repartition { join_key: 2 } } if is_input(input, Side::Right)));
        },
        _ => panic!("wrong plan"),
    }
    match create_asymmetric_repartitioning_join(0, 3) {
        JoinPlan::EquiHashJoinLeft { left, right, left_key: 0, right_key: 3 } => {
            assert!(is_input(&left, Side::Left));
            assert!(matches!(&*right, JoinPlan::Exchange { input, distribution: Distribution::Repartition { join_key: 3 } } if is_input(input, Side::Right)));
        },
        _ => panic!("wrong plan"),
    }
    match create_replication_join(4, 5) {
        JoinPlan::EquiHashJoinLeft { left, right, left_key: 4, right_key: 5 } => {
            assert!(is_input(&left, Side::Left));
            assert!(matches!(&*right, JoinPlan::Exchange { input, distribution: Distribution::Replicate } if is_input(input, Side::Right)));
        },
        _ => panic!("wrong plan"),
    }
    match create_semi_join_reduction_left(2, 6) {
        JoinPlan::LeftSemiJoin { left, right, left_key: 2, right_key: 0 } => {
            assert!(is_input(&left, Side::Left));
            match &*right {
                JoinPlan::Exchange { input, distribution: Distribution::Repartition { join_key: 0 } } => {
                    assert!(matches!(&**input, JoinPlan::Projection { input, column: 6 } if is_input(input, Side::Right)));
                },
                _ => panic!("wrong plan"),
            }
        },
        _ => panic!("wrong plan"),
    }
}
