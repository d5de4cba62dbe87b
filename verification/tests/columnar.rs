use std::collections::HashSet;
use std::ops::RangeInclusive;

use lib::columnar::data::{DataFile, DataFileHeader, ReadDataFileHeader, WriteLEBytes};
use lib::columnar::engine::{
    calculate_statistics, chunk_is_uniform, copy_chunk, delete_in_file, generate_column_info, update_in_file, MemoryStorage,
    SdmsIcebergEngine, StorageTrait,
};
use lib::columnar::manifest::Manifest;
use lib::columnar::operators::{
    chunk_from_read, filter_chunk, project_chunk, AggFunc, ColumnAggregate, ColumnEqJoin, ColumnFilter, ColumnTableScan, Operator,
};
use lib::columnar::optimizer::Optimizer;
use lib::columnar::stats::{ColumnStats, FileStats, MinMax};
use lib::columnar::table_metadata::{Catalog, TableMetadata, Version};
use lib::columnar::{Columns, DatabaseError, FileHandle, Record, RowID, TableChunk, TypeID, Value};

const MAGIC: [u8; 8] = [0x53, 0x44, 0x4d, 0x53, 0x19, 0x03, 0x4a, 0x53];

fn ival(v: i32) -> Value {
    Value::Int(v)
}

fn text(s: &str) -> Value {
    Value::Varchar(s.to_string())
}

fn ints_of(c: &[Value]) -> Vec<i32> {
    c.iter()
        .map(|v| match v {
            Value::Int(i) => *i,
            _ => panic!("not an int"),
        })
        .collect()
}

fn strs_of(c: &[Value]) -> Vec<String> {
    c.iter()
        .map(|v| match v {
            Value::Varchar(s) => s.clone(),
            _ => panic!("not a string"),
        })
        .collect()
}

fn int_chunk(cols: &[&[i32]]) -> TableChunk {
    cols.iter().map(|c| c.iter().map(|v| ival(*v)).collect()).collect()
}

#[test]
fn value_type_copy_and_order() {
    assert_eq!(ival(3).get_id(), TypeID::Int);
    assert_eq!(Value::UInt(3).get_id(), TypeID::UInt);
    assert_eq!(Value::RowID(RowID(1)).get_id(), TypeID::RowID);
    assert_eq!(text("x").get_id(), TypeID::Varchar);
    assert!(matches!(text("ab").copy(), Value::Varchar(s) if s == "ab"));
    assert!(ival(-2).less_eq(&ival(3)));
    assert!(!ival(4).less_eq(&ival(3)));
    assert!(text("abc").less_eq(&text("abd")));
    assert!(text("ab").less_eq(&text("abc")));
    assert!(!text("b").less_eq(&text("abc")));
    assert!(ival(2).equals(&ival(2)));
    assert!(!ival(2).equals(&Value::UInt(2)));
}

#[test]
fn min_max_contains() {
    let m = MinMax::new(ival(10), ival(20));
    assert!(m.contains(ival(10)));
    assert!(m.contains(ival(20)));
    assert!(!m.contains(ival(21)));
    assert!(m.contains_range(RangeInclusive::new(ival(0), ival(10))));
    assert!(m.contains_range(RangeInclusive::new(ival(15), ival(30))));
    assert!(!m.contains_range(RangeInclusive::new(ival(21), ival(30))));
    assert!(!m.contains_range(RangeInclusive::new(ival(0), ival(9))));
    let c = ColumnStats::MinMax(MinMax::new(text("b"), text("d")));
    assert!(c.contains(text("c")));
    assert!(!c.contains(text("e")));
    assert!(c.contains_range(RangeInclusive::new(text("a"), text("b"))));
}

fn stats(ranges: &[(i32, i32)]) -> FileStats {
    FileStats::new(ranges.iter().map(|(a, b)| ColumnStats::MinMax(MinMax::new(ival(*a), ival(*b)))).collect())
}

#[test]
fn file_stats_conjunctive_predicates() {
    let s = stats(&[(0, 10), (100, 200)]);
    assert!(s.contains(vec![(ival(5), 0), (ival(150), 1)]));
    assert!(!s.contains(vec![(ival(5), 0), (ival(250), 1)]));
    assert!(s.contains(vec![]));
    assert!(s.contains_range(vec![(RangeInclusive::new(ival(8), ival(12)), 0)]));
    assert!(!s.contains_range(vec![
        (RangeInclusive::new(ival(8), ival(12)), 0),
        (RangeInclusive::new(ival(0), ival(99)), 1),
    ]));
}

#[test]
fn manifest_records_changes() {
    let mut m = Manifest::empty();
    assert!(m.added().is_empty());
    m.add_file(FileHandle(1), stats(&[(0, 10)]));
    m.add_file(FileHandle(2), stats(&[(20, 30)]));
    m.delete_file(FileHandle(9));
    assert_eq!(m.added(), &[FileHandle(1), FileHandle(2)]);
    assert_eq!(m.deleted(), &[FileHandle(9)]);
    assert_eq!(m.contains(vec![(ival(25), 0)]), vec![FileHandle(2)]);
    assert_eq!(m.contains(vec![]), vec![FileHandle(1), FileHandle(2)]);
    assert_eq!(m.contains_range(vec![(RangeInclusive::new(ival(5), ival(25)), 0)]), vec![FileHandle(1), FileHandle(2)]);
    assert!(m.contains_range(vec![(RangeInclusive::new(ival(11), ival(19)), 0)]).is_empty());
    let n = Manifest::new(vec![FileHandle(3)], vec![], vec![stats(&[(1, 1)])]);
    assert_eq!(n.added(), &[FileHandle(3)]);
}

#[test]
fn version_numbers() {
    assert_eq!(Version::new(4).value(), 4);
    assert_eq!(Version::new(4).successor().value(), 5);
    assert_eq!(Version::new(u64::MAX).successor().value(), 0);
    assert_eq!(Version::default().value(), 0);
}

fn ids(v: &[u128]) -> HashSet<u128> {
    v.iter().copied().collect()
}

#[test]
fn table_metadata_time_travel() {
    let mut t = TableMetadata::new("t".to_string(), vec![("a".to_string(), TypeID::Int)]);
    assert!(t.files(None).is_empty());
    let v1 = t.add_version(Manifest::new(vec![FileHandle(1), FileHandle(2)], vec![], vec![stats(&[(0, 5)]), stats(&[(6, 9)])]));
    assert_eq!(v1.value(), 1);
    let v2 = t.add_version(Manifest::new(vec![FileHandle(3)], vec![FileHandle(1)], vec![stats(&[(0, 3)])]));
    assert_eq!(v2.value(), 2);
    assert_eq!(t.files(None), ids(&[2, 3]));
    assert_eq!(t.files(Some(Version::new(1))), ids(&[1, 2]));
    assert_eq!(t.files(Some(Version::new(0))), ids(&[]));
    assert_eq!(t.files(Some(Version::new(7))), ids(&[2, 3]));
    assert_eq!(t.snapshot(Some(Version::new(1))).len(), 1);
    assert_eq!(t.contains(vec![(ival(2), 0)], None), ids(&[3]));
    assert_eq!(t.contains(vec![(ival(2), 0)], Some(Version::new(1))), ids(&[1]));
    assert_eq!(t.contains_range(vec![(RangeInclusive::new(ival(4), ival(7)), 0)], None), ids(&[2]));
    // a later version leaves the earlier snapshot alone
    t.add_version(Manifest::new(vec![], vec![FileHandle(2)], vec![]));
    assert_eq!(t.files(Some(Version::new(1))), ids(&[1, 2]));
    assert_eq!(t.files(None), ids(&[3]));
}

#[test]
fn catalog_tables() {
    let mut c = Catalog::new();
    assert!(!c.check_table_exists(0));
    assert_eq!(c.add_table("a".to_string(), vec![]), 0);
    assert_eq!(c.add_table("b".to_string(), vec![("x".to_string(), TypeID::UInt)]), 1);
    assert!(c.check_table_exists(1));
    assert!(!c.check_table_exists(2));
    assert_eq!(c.table(1).name, "b");
    c.get_table_metadata(0).add_version(Manifest::empty());
    assert_eq!(c.table(0).manifests.len(), 1);
}

#[test]
fn write_le_bytes_of_values() {
    let mut b = Vec::new();
    7u32.write_bytes(&mut b);
    (-1i32).write_bytes(&mut b);
    1u64.write_bytes(&mut b);
    "hi".to_string().write_bytes(&mut b);
    assert_eq!(b, vec![7, 0, 0, 0, 0xff, 0xff, 0xff, 0xff, 1, 0, 0, 0, 0, 0, 0, 0, 2, 0, 0, 0, 0, 0, 0, 0, b'h', b'i']);
    let mut v = Vec::new();
    Value::RowID(RowID(2)).write_bytes(&mut v);
    Value::UInt(3).write_bytes(&mut v);
    assert_eq!(v, vec![2, 0, 0, 0, 0, 0, 0, 0, 3, 0, 0, 0]);
}

#[test]
fn data_file_bytes_layout() {
    let header = DataFileHeader::new(2, 1, vec![TypeID::Int]);
    assert_eq!(header.byte_length(), 40);
    let f = DataFile::new(header, vec![vec![ival(1), ival(-1)]]);
    assert!(f.can_write());
    let mut expected = MAGIC.to_vec();
    expected.extend_from_slice(&2u64.to_le_bytes());
    expected.extend_from_slice(&1u64.to_le_bytes());
    expected.extend_from_slice(&0u64.to_le_bytes());
    expected.extend_from_slice(&40u64.to_le_bytes());
    expected.extend_from_slice(&[1, 0, 0, 0, 0xff, 0xff, 0xff, 0xff]);
    assert_eq!(f.to_bytes(), expected);
}

fn mixed_file() -> DataFile {
    let data: TableChunk = vec![
        vec![ival(1), ival(2), ival(3)],
        vec![text("a"), text(""), text("xyz")],
        vec![Value::UInt(9), Value::UInt(8), Value::UInt(7)],
        vec![Value::RowID(RowID(10)), Value::RowID(RowID(11)), Value::RowID(RowID(12))],
    ];
    DataFile::new(DataFileHeader::new(3, 4, generate_column_info(&data)), data)
}

#[test]
fn data_file_round_trip() {
    let f = mixed_file();
    let bytes = f.to_bytes();
    let header = ReadDataFileHeader::parse(&bytes).unwrap();
    assert_eq!(header.rows, 3);
    assert_eq!(header.columns, 4);
    assert_eq!(header.column_info[0], (TypeID::Int, 88));
    assert_eq!(header.column_info[1].0, TypeID::Varchar);
    assert_eq!(header.column_info[1].1, 100);
    let back = DataFile::parse(&bytes).unwrap();
    assert_eq!(back.header.rows, 3);
    assert_eq!(back.header.column_info, vec![TypeID::Int, TypeID::Varchar, TypeID::UInt, TypeID::RowID]);
    assert_eq!(ints_of(&back.data[0]), vec![1, 2, 3]);
    assert_eq!(strs_of(&back.data[1]), vec!["a", "", "xyz"]);
    assert!(matches!(back.data[2][2], Value::UInt(7)));
    assert!(matches!(back.data[3][0], Value::RowID(RowID(10))));
}

#[test]
fn data_file_selected_columns() {
    let bytes = mixed_file().to_bytes();
    let back = DataFile::parse_columns(&bytes, Columns::Selection(vec![1])).unwrap();
    assert_eq!(back.data.len(), 4);
    assert!(back.data[0].is_empty());
    assert_eq!(strs_of(&back.data[1]), vec!["a", "", "xyz"]);
    assert!(back.data[2].is_empty());
    let all = DataFile::parse_columns(&bytes, Columns::All).unwrap();
    assert_eq!(all.data[3].len(), 3);
}

#[test]
fn data_file_parse_errors() {
    let bytes = mixed_file().to_bytes();
    assert_eq!(DataFile::parse(&bytes[..5]).err(), Some(DatabaseError::IOError));
    let mut bad_magic = bytes.clone();
    bad_magic[0] = 0;
    assert_eq!(DataFile::parse(&bad_magic).err(), Some(DatabaseError::Unknown));
    assert_eq!(DataFile::parse(&bytes[..bytes.len() - 1]).err(), Some(DatabaseError::IOError));
    let f = DataFile::new(DataFileHeader::new(1, 1, vec![TypeID::Varchar]), vec![vec![text("ok")]]);
    let mut bad_utf8 = f.to_bytes();
    let n = bad_utf8.len();
    bad_utf8[n - 1] = 0xff;
    assert_eq!(DataFile::parse(&bad_utf8).err(), Some(DatabaseError::InvalidUTF8));
}

#[test]
fn chunk_statistics_and_types() {
    let chunk: TableChunk = vec![vec![ival(5), ival(-3), ival(9)], vec![text("m"), text("b"), text("z")]];
    assert!(chunk_is_uniform(&chunk));
    assert!(!chunk_is_uniform(&vec![vec![ival(1), Value::UInt(1)]]));
    assert!(!chunk_is_uniform(&vec![vec![]]));
    assert_eq!(generate_column_info(&chunk), vec![TypeID::Int, TypeID::Varchar]);
    let s = calculate_statistics(&chunk);
    match &s.column_stats[0] {
        ColumnStats::MinMax(m) => {
            assert!(matches!(m.min, Value::Int(-3)));
            assert!(matches!(m.max, Value::Int(9)));
        },
    }
    match &s.column_stats[1] {
        ColumnStats::MinMax(m) => {
            assert!(matches!(&m.min, Value::Varchar(x) if x == "b"));
            assert!(matches!(&m.max, Value::Varchar(x) if x == "z"));
        },
    }
}

fn engine() -> SdmsIcebergEngine<MemoryStorage> {
    let mut catalog = Catalog::new();
    catalog.add_table("t".to_string(), vec![("a".to_string(), TypeID::Int), ("b".to_string(), TypeID::Int)]);
    SdmsIcebergEngine::new(catalog, MemoryStorage::new())
}

fn table_files(e: &SdmsIcebergEngine<MemoryStorage>) -> Vec<u128> {
    let mut v: Vec<u128> = e.catalog.table(0).files(None).into_iter().collect();
    v.sort();
    v
}

fn read_chunk(e: &SdmsIcebergEngine<MemoryStorage>, id: u128) -> TableChunk {
    DataFile::parse(&e.storage.read_file(&FileHandle(id)).unwrap()).unwrap().data
}

#[test]
fn engine_requires_modification() {
    let mut e = engine();
    assert_eq!(e.insert(vec![int_chunk(&[&[1]])]), Err(DatabaseError::EngineError));
    assert_eq!(e.commit(), Err(DatabaseError::EngineError));
    assert_eq!(e.delete_chunks(&[]), Err(DatabaseError::EngineError));
    assert_eq!(e.start_table_modification(1), Err(DatabaseError::EngineError));
    assert_eq!(e.start_table_modification(0), Ok(()));
    assert_eq!(e.start_table_modification(0), Err(DatabaseError::EngineError));
    assert_eq!(e.commit(), Ok(()));
    assert!(e.catalog.table(0).manifests.is_empty());
}

#[test]
fn engine_insert_commit_creates_version() {
    let mut e = engine();
    e.start_table_modification(0).unwrap();
    e.insert(vec![int_chunk(&[&[1, 2], &[10, 20]]), int_chunk(&[&[3], &[30]])]).unwrap();
    assert_eq!(e.manifest.added.len(), 2);
    assert_eq!(e.changed_files.len(), 2);
    e.commit().unwrap();
    assert_eq!(e.catalog.table(0).version.value(), 1);
    assert_eq!(e.catalog.table(0).manifests.len(), 1);
    assert!(e.manifest.added.is_empty());
    let files = table_files(&e);
    assert_eq!(files.len(), 2);
    let c = read_chunk(&e, files[0]);
    assert_eq!(ints_of(&c[0]), vec![1, 2]);
    assert_eq!(ints_of(&c[1]), vec![10, 20]);
}

#[test]
fn engine_delete_rows_copy_on_write() {
    let mut e = engine();
    e.start_table_modification(0).unwrap();
    e.insert(vec![int_chunk(&[&[1, 2, 3], &[10, 20, 30]]), int_chunk(&[&[4], &[40]])]).unwrap();
    e.commit().unwrap();
    let files = table_files(&e);
    e.start_table_modification(0).unwrap();
    e.delete(vec![(FileHandle(files[0]), vec![1]), (FileHandle(files[1]), vec![0])]).unwrap();
    e.commit().unwrap();
    let now = table_files(&e);
    assert_eq!(now.len(), 1);
    let c = read_chunk(&e, now[0]);
    assert_eq!(ints_of(&c[0]), vec![1, 3]);
    assert_eq!(ints_of(&c[1]), vec![10, 30]);
    // the first version still reads the old files
    assert_eq!(e.catalog.table(0).files(Some(Version::new(1))), ids(&files));
}

#[test]
fn engine_update_rows_copy_on_write() {
    let mut e = engine();
    e.start_table_modification(0).unwrap();
    e.insert(vec![int_chunk(&[&[1, 2], &[10, 20]])]).unwrap();
    e.commit().unwrap();
    let f = table_files(&e)[0];
    e.start_table_modification(0).unwrap();
    e.update(vec![(FileHandle(f), vec![(1, Record { record: vec![ival(7), ival(70)] })])]).unwrap();
    assert_eq!(
        e.update(vec![(FileHandle(f), vec![(0, Record { record: vec![ival(8), ival(80)] })])]),
        Err(DatabaseError::EngineError)
    );
    e.commit().unwrap();
    let now = table_files(&e);
    assert_eq!(now.len(), 1);
    assert_ne!(now[0], f);
    let c = read_chunk(&e, now[0]);
    assert_eq!(ints_of(&c[0]), vec![1, 7]);
    assert_eq!(ints_of(&c[1]), vec![10, 70]);
}

#[test]
fn engine_refuses_bad_targets() {
    let mut e = engine();
    e.start_table_modification(0).unwrap();
    e.insert(vec![int_chunk(&[&[1], &[2]])]).unwrap();
    e.commit().unwrap();
    let f = FileHandle(table_files(&e)[0]);
    e.start_table_modification(0).unwrap();
    assert_eq!(e.delete_chunks(&[f, f]), Err(DatabaseError::EngineError));
    assert_eq!(e.delete_chunks(&[FileHandle(99)]), Err(DatabaseError::EngineError));
    assert_eq!(e.delete(vec![(FileHandle(99), vec![0])]), Err(DatabaseError::EngineError));
    assert_eq!(
        e.update(vec![(f, vec![(5, Record { record: vec![ival(0), ival(0)] })])]),
        Err(DatabaseError::EngineError)
    );
    assert_eq!(e.delete_chunks(&[f]), Ok(()));
    assert_eq!(e.delete_chunks(&[f]), Err(DatabaseError::EngineError));
    e.commit().unwrap();
    assert!(table_files(&e).is_empty());
    assert_eq!(e.catalog.table(0).version.value(), 2);
}

#[test]
fn memory_storage_files() {
    let mut s = MemoryStorage::new();
    let a = s.write_file(&[1, 2]).unwrap();
    let b = s.write_file(&[3]).unwrap();
    assert_ne!(a, b);
    assert_eq!(s.read_file(&a).unwrap(), vec![1, 2]);
    assert_eq!(s.read_file(&b).unwrap(), vec![3]);
    assert_eq!(s.read_file(&FileHandle(77)).err(), Some(DatabaseError::IOError));
}

fn storage_with(chunks: &[TableChunk]) -> (MemoryStorage, Vec<FileHandle>) {
    let mut s = MemoryStorage::new();
    let mut hs = Vec::new();
    for c in chunks {
        let f = DataFile::new(DataFileHeader::new(c[0].len() as u64, c.len() as u64, generate_column_info(c)), copy_chunk(c));
        hs.push(s.write_file(&f.to_bytes()).unwrap());
    }
    (s, hs)
}

fn drain<O: Operator>(op: &mut O) -> Vec<TableChunk> {
    let mut out = Vec::new();
    while let Some(c) = op.next() {
        out.push(c);
    }
    out
}

#[test]
fn filter_and_project_chunks() {
    let chunk = int_chunk(&[&[1, 5, 9, 5], &[10, 50, 90, 51]]);
    let f = filter_chunk(copy_chunk(&chunk), &vec![(0, (ival(2), ival(8)))]);
    assert_eq!(ints_of(&f[0]), vec![5, 5]);
    assert_eq!(ints_of(&f[1]), vec![50, 51]);
    let g = filter_chunk(copy_chunk(&chunk), &vec![(0, (ival(2), ival(8))), (1, (ival(51), ival(60)))]);
    assert_eq!(ints_of(&g[1]), vec![51]);
    let p = project_chunk(copy_chunk(&chunk), &Columns::Selection(vec![1]));
    assert!(p[0].is_empty());
    assert_eq!(ints_of(&p[1]), vec![10, 50, 90, 51]);
    assert_eq!(project_chunk(chunk, &Columns::All)[0].len(), 4);
}

#[test]
fn scan_and_filter_operators() {
    let (s, hs) = storage_with(&[int_chunk(&[&[1, 2], &[3, 4]]), int_chunk(&[&[5], &[6]])]);
    let mut scan = ColumnTableScan::new(hs.clone(), Columns::All, s);
    scan.open();
    let chunks = drain(&mut scan);
    assert_eq!(chunks.len(), 2);
    assert_eq!(ints_of(&chunks[1][1]), vec![6]);
    scan.close();
    let (s2, hs2) = storage_with(&[int_chunk(&[&[1, 2], &[3, 4]]), int_chunk(&[&[5], &[6]])]);
    let mut filter = ColumnFilter::new(ColumnTableScan::new(hs2, Columns::All, s2), vec![(0, (ival(2), ival(5)))]);
    filter.open();
    let chunks = drain(&mut filter);
    assert_eq!(ints_of(&chunks[0][0]), vec![2]);
    assert_eq!(ints_of(&chunks[1][1]), vec![6]);
    filter.close();
}

#[test]
fn eq_join_operator() {
    let (ls, lh) = storage_with(&[int_chunk(&[&[1, 2, 3], &[10, 20, 30]])]);
    let (rs, rh) = storage_with(&[int_chunk(&[&[3, 1, 4], &[300, 100, 400]]), int_chunk(&[&[2], &[200]])]);
    let mut j = ColumnEqJoin::new(ColumnTableScan::new(lh, Columns::All, ls), ColumnTableScan::new(rh, Columns::All, rs), (0, 0));
    j.open();
    let out = drain(&mut j);
    assert_eq!(out.len(), 2);
    assert_eq!(out[0].len(), 4);
    assert_eq!(ints_of(&out[0][0]), vec![3, 1]);
    assert_eq!(ints_of(&out[0][1]), vec![30, 10]);
    assert_eq!(ints_of(&out[0][3]), vec![300, 100]);
    assert_eq!(ints_of(&out[1][1]), vec![20]);
    j.close();
}

struct Sum;

impl AggFunc for Sum {
    fn aggregate_of(&self, values: Vec<Value>) -> Value {
        self.call(&values)
    }

    fn call(&self, values: &Vec<Value>) -> Value {
        ival(ints_of(values).iter().sum())
    }
}

#[test]
fn aggregate_operator() {
    let (s, hs) = storage_with(&[int_chunk(&[&[1, 2], &[3, 4]]), int_chunk(&[&[5], &[6]])]);
    let mut a = ColumnAggregate::new(ColumnTableScan::new(hs, Columns::All, s), vec![(1, Sum), (0, Sum)]);
    a.open();
    let out = a.next().unwrap();
    assert_eq!(out.len(), 2);
    assert_eq!(ints_of(&out[0]), vec![8]);
    assert_eq!(ints_of(&out[1]), vec![13]);
    assert!(a.next().is_none());
    a.close();
}

#[test]
fn optimizer_has_no_state() {
    let _o = Optimizer {};
}

#[test]
fn statistics_cover_every_value() {
    let chunk: TableChunk = vec![vec![ival(7), ival(-4), ival(12), ival(0)], vec![text("q"), text("a"), text("zz"), text("m")]];
    let s = calculate_statistics(&chunk);
    for (j, column) in chunk.iter().enumerate() {
        for v in column {
            assert!(s.column_stats[j].contains(v.copy()));
        }
    }
    assert!(!s.column_stats[0].contains(ival(13)));
    assert!(!s.column_stats[1].contains(text("zzz")));
}

#[test]
fn two_column_three_row_file_is_eighty_bytes() {
    let data: TableChunk = vec![
        vec![ival(1), ival(2), ival(3)],
        vec![Value::UInt(4), Value::UInt(5), Value::UInt(6)],
    ];
    let f = DataFile::new(DataFileHeader::new(3, 2, generate_column_info(&data)), data);
    let bytes = f.to_bytes();
    assert_eq!(bytes.len(), 80);
    assert_eq!(DataFile::parse(&bytes).unwrap().to_bytes(), bytes);
}

#[test]
fn scan_chunk_from_read_result() {
    let c = int_chunk(&[&[1, 2], &[3, 4]]);
    let f = DataFile::new(DataFileHeader::new(2, 2, generate_column_info(&c)), copy_chunk(&c));
    let bytes = f.to_bytes();
    let all = chunk_from_read(Ok(bytes.clone()), &Columns::All).unwrap();
    assert_eq!(ints_of(&all[0]), vec![1, 2]);
    assert_eq!(ints_of(&all[1]), vec![3, 4]);
    let sel = chunk_from_read(Ok(bytes.clone()), &Columns::Selection(vec![1])).unwrap();
    assert!(sel[0].is_empty());
    assert_eq!(ints_of(&sel[1]), vec![3, 4]);
    assert!(chunk_from_read(Ok(bytes[..5].to_vec()), &Columns::All).is_none());
    assert!(chunk_from_read(Err(DatabaseError::IOError), &Columns::All).is_none());
}

#[test]
fn aggregate_partials_and_finish() {
    let (s, hs) = storage_with(&[]);
    let a = ColumnAggregate::new(ColumnTableScan::new(hs, Columns::All, s), vec![(1, Sum), (0, Sum)]);
    let mut partials: TableChunk = vec![vec![], vec![]];
    assert!(a.add_partials(&mut partials, &int_chunk(&[&[1, 2], &[3, 4]])));
    assert!(a.add_partials(&mut partials, &int_chunk(&[&[5], &[6]])));
    assert_eq!(ints_of(&partials[0]), vec![3, 5]);
    assert_eq!(ints_of(&partials[1]), vec![7, 6]);
    assert!(!a.add_partials(&mut partials, &int_chunk(&[&[9]])));
    assert_eq!(ints_of(&partials[0]), vec![3, 5]);
    let row = a.finish(partials);
    assert_eq!(ints_of(&row[0]), vec![8]);
    assert_eq!(ints_of(&row[1]), vec![13]);
}

#[test]
fn memory_storage_numbers_files_in_order() {
    let mut s = MemoryStorage::new();
    assert_eq!(s.write_file(&[7]).unwrap(), FileHandle(0));
    assert_eq!(s.write_file(&[8]).unwrap(), FileHandle(1));
}

#[test]
fn delete_and_update_steps_on_file_bytes() {
    let c = int_chunk(&[&[1, 2, 3], &[10, 20, 30]]);
    let bytes = DataFile::new(DataFileHeader::new(3, 2, generate_column_info(&c)), copy_chunk(&c)).to_bytes();
    let left = delete_in_file(&bytes, &vec![0, 2]).unwrap().unwrap();
    assert_eq!(left.header.rows, 1);
    assert_eq!(ints_of(&left.data[0]), vec![2]);
    assert_eq!(ints_of(&left.data[1]), vec![20]);
    assert!(delete_in_file(&bytes, &vec![0, 1, 2]).unwrap().is_none());
    assert_eq!(delete_in_file(&bytes[..5], &vec![0]).err(), Some(DatabaseError::IOError));
    let changed = update_in_file(&bytes, &vec![(1, Record { record: vec![ival(9), ival(90)] })]).unwrap();
    assert_eq!(ints_of(&changed.data[0]), vec![1, 9, 3]);
    assert_eq!(ints_of(&changed.data[1]), vec![10, 90, 30]);
    assert_eq!(
        update_in_file(&bytes, &vec![(3, Record { record: vec![ival(9), ival(90)] })]).err(),
        Some(DatabaseError::EngineError)
    );
}
