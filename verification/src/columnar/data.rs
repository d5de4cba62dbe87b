//! The columnar data-file format.
//!
//! A file is: 8 magic bytes, the row count and the column count (each a
//! little-endian `u64`), one `(type code, start offset)` pair of `u64`s per
//! column, then the columns' values back to back. `Int` and `UInt` take 4
//! bytes, `RowID` 8, and `Varchar` a `u64` byte length followed by its UTF-8
//! bytes.

use vstd::bytes::{
    spec_u32_from_le_bytes, spec_u32_to_le_bytes, spec_u64_from_le_bytes, spec_u64_to_le_bytes,
};
use vstd::prelude::*;
use vstd::utf8::{decode_utf8, encode_utf8, valid_utf8};

use super::{
    chunk_view, column_view, type_of, Columns, DatabaseError, RowID, TableChunk, TypeID, Value, ValueView,
};

verus! {

/// The magic bytes that start every data file.
pub open spec fn magic() -> Seq<u8> {
    seq![0x53u8, 0x44u8, 0x4du8, 0x53u8, 0x19u8, 0x03u8, 0x4au8, 0x53u8]
}

/// Code of a column type in a file header.
pub open spec fn type_code(t: TypeID) -> u64 {
    match t {
        TypeID::Int => 0,
        TypeID::UInt => 1,
        TypeID::RowID => 2,
        TypeID::Varchar => 3,
    }
}

/// The column type with code `c`.
pub open spec fn code_type(c: u64) -> Option<TypeID> {
    if c == 0 {
        Some(TypeID::Int)
    } else if c == 1 {
        Some(TypeID::UInt)
    } else if c == 2 {
        Some(TypeID::RowID)
    } else if c == 3 {
        Some(TypeID::Varchar)
    } else {
        None
    }
}

/// The bytes of a string value: its byte length, then its UTF-8 bytes.
pub open spec fn string_bytes(s: Seq<char>) -> Seq<u8> {
    spec_u64_to_le_bytes(encode_utf8(s).len() as u64) + encode_utf8(s)
}

/// The bytes of a value.
pub open spec fn value_bytes(v: ValueView) -> Seq<u8> {
    match v {
        ValueView::Int(x) => spec_u32_to_le_bytes(x as u32),
        ValueView::UInt(x) => spec_u32_to_le_bytes(x),
        ValueView::RowID(x) => spec_u64_to_le_bytes(x),
        ValueView::Varchar(s) => string_bytes(s),
    }
}

/// The bytes of a column's values.
pub open spec fn column_bytes(c: Seq<ValueView>) -> Seq<u8>
    decreases c.len(),
{
    if c.len() == 0 {
        seq![]
    } else {
        column_bytes(c.drop_last()) + value_bytes(c.last())
    }
}

/// The bytes that the offset computation counts for the strings `c`.
pub open spec fn string_span(c: Seq<ValueView>) -> int
    decreases c.len(),
{
    if c.len() == 0 {
        0
    } else {
        string_span(c.drop_last()) + match c.last() {
            ValueView::Varchar(s) => 8 + encode_utf8(s).len(),
            _ => 0,
        }
    }
}

/// The bytes that the offset computation counts for column `c` of type `t`.
pub open spec fn column_span(c: Seq<ValueView>, t: TypeID) -> int {
    match t {
        TypeID::RowID => 8 * c.len() as int,
        TypeID::Int => 4 * c.len() as int,
        TypeID::UInt => 4 * c.len() as int,
        TypeID::Varchar => string_span(c),
    }
}

/// Number of columns that are written: those that have a type.
pub open spec fn written(data: Seq<Seq<ValueView>>, types: Seq<TypeID>) -> int {
    if data.len() <= types.len() {
        data.len() as int
    } else {
        types.len() as int
    }
}

/// Offset of column `j` when the columns start at `base`.
pub open spec fn column_start(base: int, data: Seq<Seq<ValueView>>, types: Seq<TypeID>, j: int) -> int
    decreases j,
{
    if j <= 0 {
        base
    } else {
        column_start(base, data, types, j - 1) + column_span(data[j - 1], types[j - 1])
    }
}

/// The bytes of the columns `0..j`.
pub open spec fn data_bytes(data: Seq<Seq<ValueView>>, j: int) -> Seq<u8>
    decreases j,
{
    if j <= 0 {
        seq![]
    } else {
        data_bytes(data, j - 1) + column_bytes(data[j - 1])
    }
}

/// The header entries `0..j`: type code and start offset of each column.
pub open spec fn info_bytes(types: Seq<TypeID>, starts: Seq<int>, j: int) -> Seq<u8>
    decreases j,
{
    if j <= 0 {
        seq![]
    } else {
        info_bytes(types, starts, j - 1) + spec_u64_to_le_bytes(type_code(types[j - 1]))
            + spec_u64_to_le_bytes(starts[j - 1] as u64)
    }
}

/// Length of a header that announces `columns` columns.
pub open spec fn header_len(columns: u64) -> int {
    24 + 16 * columns
}

/// A data file's header and data, by view.
pub struct DataFileView {
    pub rows: u64,
    pub columns: u64,
    pub types: Seq<TypeID>,
    pub data: Seq<Seq<ValueView>>,
}

/// Header of a data file: row count, column count and column types.
pub struct DataFileHeader {
    pub rows: u64,
    pub columns: u64,
    pub column_info: Vec<TypeID>,
}

/// A data file: its header and its columns.
pub struct DataFile {
    pub header: DataFileHeader,
    pub data: TableChunk,
}

/// Header as read from a file: types with the start offsets of the columns.
pub struct ReadDataFileHeader {
    pub rows: u64,
    pub columns: u64,
    pub column_info: Vec<(TypeID, u64)>,
}

impl DataFile {
    /// The file by view.
    pub open spec fn view_of(&self) -> DataFileView {
        DataFileView {
            rows: self.header.rows,
            columns: self.header.columns,
            types: self.header.column_info@,
            data: chunk_view(self.data@),
        }
    }
}

/// The start offsets of the written columns of `f`.
pub open spec fn starts_of(f: DataFileView) -> Seq<int> {
    Seq::new(
        written(f.data, f.types) as nat,
        |j: int| column_start(header_len(f.columns), f.data, f.types, j),
    )
}

/// The bytes of data file `f`.
pub open spec fn file_bytes(f: DataFileView) -> Seq<u8> {
    let w = written(f.data, f.types);
    magic() + spec_u64_to_le_bytes(f.rows) + spec_u64_to_le_bytes(f.columns) + info_bytes(
        f.types,
        starts_of(f),
        w,
    ) + data_bytes(f.data, w)
}

/// `f` can be written: its string columns hold strings only, and every
/// offset fits a `usize`.
pub open spec fn writable(f: DataFileView) -> bool {
    let w = written(f.data, f.types);
    &&& header_len(f.columns) <= usize::MAX
    &&& column_start(header_len(f.columns), f.data, f.types, w) <= usize::MAX
    &&& forall|j: int|
        0 <= j < w && f.types[j] == TypeID::Varchar ==> forall|k: int|
            0 <= k < f.data[j].len() ==> (#[trigger] f.data[j][k]) is Varchar
}

/// Writing a value's little-endian bytes.
pub trait WriteLEBytes {
    /// The bytes that are written.
    spec fn le_bytes(&self) -> Seq<u8>;

    /// Appends the bytes to `buffer`.
    fn write_bytes(&self, buffer: &mut Vec<u8>)
        ensures
            final(buffer)@ == old(buffer)@ + self.le_bytes(),
    ;
}

impl WriteLEBytes for u32 {
    open spec fn le_bytes(&self) -> Seq<u8> {
        spec_u32_to_le_bytes(*self)
    }

    fn write_bytes(&self, buffer: &mut Vec<u8>) {
        let mut b = vstd::bytes::u32_to_le_bytes(*self);
        buffer.append(&mut b);
    }
}

impl WriteLEBytes for u64 {
    open spec fn le_bytes(&self) -> Seq<u8> {
        spec_u64_to_le_bytes(*self)
    }

    fn write_bytes(&self, buffer: &mut Vec<u8>) {
        let mut b = vstd::bytes::u64_to_le_bytes(*self);
        buffer.append(&mut b);
    }
}

impl WriteLEBytes for i32 {
    open spec fn le_bytes(&self) -> Seq<u8> {
        spec_u32_to_le_bytes(*self as u32)
    }

    fn write_bytes(&self, buffer: &mut Vec<u8>) {
        let mut b = vstd::bytes::u32_to_le_bytes(#[verifier::truncate] (*self as u32));
        buffer.append(&mut b);
    }
}

impl WriteLEBytes for String {
    open spec fn le_bytes(&self) -> Seq<u8> {
        string_bytes(self@)
    }

    fn write_bytes(&self, buffer: &mut Vec<u8>) {
        let bytes = self.as_str().as_bytes();
        let len = bytes.len() as u64;
        let mut b = vstd::bytes::u64_to_le_bytes(len);
        buffer.append(&mut b);
        let mut rest = vstd::slice::slice_to_vec(bytes);
        buffer.append(&mut rest);
    }
}

impl WriteLEBytes for Value {
    open spec fn le_bytes(&self) -> Seq<u8> {
        value_bytes(self@)
    }

    fn write_bytes(&self, buffer: &mut Vec<u8>) {
        match self {
            Value::Int(num) => num.write_bytes(buffer),
            Value::UInt(num) => num.write_bytes(buffer),
            Value::RowID(RowID(num)) => num.write_bytes(buffer),
            Value::Varchar(st) => st.write_bytes(buffer),
        }
    }
}

proof fn lemma_string_span_prefix(c: Seq<ValueView>, k: int)
    requires
        0 <= k <= c.len(),
    ensures
        0 <= string_span(c.subrange(0, k)) <= string_span(c),
    decreases c.len() - k,
{
    if k < c.len() {
        lemma_string_span_prefix(c, k + 1);
        assert(c.subrange(0, k + 1).drop_last() == c.subrange(0, k));
        lemma_string_span_nonneg(c.subrange(0, k));
    } else {
        assert(c.subrange(0, k) == c);
        lemma_string_span_nonneg(c);
    }
}

proof fn lemma_string_span_nonneg(c: Seq<ValueView>)
    ensures
        string_span(c) >= 0,
    decreases c.len(),
{
    if c.len() > 0 {
        lemma_string_span_nonneg(c.drop_last());
    }
}

proof fn lemma_column_start_mono(base: int, data: Seq<Seq<ValueView>>, types: Seq<TypeID>, i: int, j: int)
    requires
        0 <= i <= j,
    ensures
        column_start(base, data, types, i) <= column_start(base, data, types, j),
    decreases j - i,
{
    if i < j {
        lemma_column_start_mono(base, data, types, i, j - 1);
        lemma_string_span_nonneg(data[j - 1]);
    }
}

impl DataFileHeader {
    /// A header.
    pub fn new(rows: u64, columns: u64, column_info: Vec<TypeID>) -> (h: DataFileHeader)
        ensures
            h.rows == rows,
            h.columns == columns,
            h.column_info@ == column_info@,
    {
        DataFileHeader { rows, columns, column_info }
    }

    /// Length of the serialized header.
    pub fn byte_length(&self) -> (n: usize)
        requires
            header_len(self.columns) <= usize::MAX,
        ensures
            n == header_len(self.columns),
    {
        24 + self.columns as usize * 16
    }

    /// The serialized header, with the given column start offsets.
    pub fn to_bytes(&self, column_start_indexes: &[usize]) -> (r: Vec<u8>)
        ensures
            ({
                let starts = column_start_indexes@.map_values(|x: usize| x as int);
                let n = if self.column_info@.len() <= starts.len() {
                    self.column_info@.len() as int
                } else {
                    starts.len() as int
                };
                r@ == magic() + spec_u64_to_le_bytes(self.rows) + spec_u64_to_le_bytes(self.columns)
                    + info_bytes(self.column_info@, starts, n)
            }),
    {
        let ghost starts = column_start_indexes@.map_values(|x: usize| x as int);
        let mut vec: Vec<u8> = Vec::new();
        vec.push(0x53u8);
        vec.push(0x44u8);
        vec.push(0x4du8);
        vec.push(0x53u8);
        vec.push(0x19u8);
        vec.push(0x03u8);
        vec.push(0x4au8);
        vec.push(0x53u8);
        proof {
            assert(vec@ =~= magic());
        }
        self.rows.write_bytes(&mut vec);
        self.columns.write_bytes(&mut vec);
        let n = if self.column_info.len() <= column_start_indexes.len() {
            self.column_info.len()
        } else {
            column_start_indexes.len()
        };
        let ghost head = vec@;
        let mut j: usize = 0;
        while j < n
            invariant
                j <= n,
                n <= self.column_info@.len(),
                n <= column_start_indexes@.len(),
                starts == column_start_indexes@.map_values(|x: usize| x as int),
                vec@ == head + info_bytes(self.column_info@, starts, j as int),
            decreases n - j,
        {
            let code: u64 = match self.column_info[j] {
                TypeID::Int => 0,
                TypeID::UInt => 1,
                TypeID::RowID => 2,
                TypeID::Varchar => 3,
            };
            code.write_bytes(&mut vec);
            let start = column_start_indexes[j] as u64;
            start.write_bytes(&mut vec);
            j = j + 1;
            proof {
                assert(vec@ =~= head + info_bytes(self.column_info@, starts, j as int));
            }
        }
        vec
    }
}

impl DataFile {
    /// A data file.
    pub fn new(header: DataFileHeader, data: TableChunk) -> (f: DataFile)
        ensures
            f.header == header,
            f.data == data,
    {
        DataFile { header, data }
    }

    /// The serialized file: the header with each column's start offset,
    /// then the columns' values.
    pub fn to_bytes(&self) -> (r: Vec<u8>)
        requires
            writable(self.view_of()),
        ensures
            r@ == file_bytes(self.view_of()),
    {
        let ghost f = self.view_of();
        let ghost w = written(f.data, f.types);
        let hdr = self.header.byte_length();
        let mut vec: Vec<u8> = Vec::new();
        let mut indexes: Vec<usize> = Vec::new();
        let mut index: usize = hdr;
        let n = if self.data.len() <= self.header.column_info.len() {
            self.data.len()
        } else {
            self.header.column_info.len()
        };
        let mut j: usize = 0;
        while j < n
            invariant
                f == self.view_of(),
                writable(f),
                n == w,
                w == written(f.data, f.types),
                f.data.len() == self.data@.len(),
                j <= n,
                vec@ == data_bytes(f.data, j as int),
                indexes@.len() == j,
                forall|i: int| 0 <= i < j ==> #[trigger] indexes@[i] == column_start(hdr as int, f.data, f.types, i),
                index == column_start(hdr as int, f.data, f.types, j as int),
                hdr == header_len(f.columns),
            decreases n - j,
        {
            indexes.push(index);
            let column = &self.data[j];
            let typeid = self.header.column_info[j];
            let ghost c = f.data[j as int];
            proof {
                assert(c == column_view(column@));
                lemma_column_start_mono(hdr as int, f.data, f.types, j + 1, w);
                lemma_string_span_nonneg(c);
            }
            match typeid {
                TypeID::RowID => {
                    index = index + 8 * column.len();
                },
                TypeID::Int => {
                    index = index + 4 * column.len();
                },
                TypeID::UInt => {
                    index = index + 4 * column.len();
                },
                TypeID::Varchar => {},
            }
            let ghost base = vec@;
            let ghost start = column_start(hdr as int, f.data, f.types, j as int);
            let mut k: usize = 0;
            while k < column.len()
                invariant
                    k <= column@.len(),
                    c == column_view(column@),
                    vec@ == base + column_bytes(c.subrange(0, k as int)),
                    typeid == f.types[j as int],
                    typeid == TypeID::Varchar ==> index == start + string_span(c.subrange(0, k as int)),
                    typeid != TypeID::Varchar ==> index == start + column_span(c, typeid),
                    start + column_span(c, typeid) <= usize::MAX,
                    typeid == TypeID::Varchar ==> forall|q: int| 0 <= q < c.len() ==> (#[trigger] c[q]) is Varchar,
                decreases column@.len() - k,
            {
                let elem = &column[k];
                elem.write_bytes(&mut vec);
                proof {
                    assert(c.subrange(0, k + 1).drop_last() == c.subrange(0, k as int));
                    assert(c[k as int] == elem@);
                }
                if typeid == TypeID::Varchar {
                    match elem {
                        Value::Varchar(st) => {
                            proof {
                                lemma_string_span_prefix(c, k + 1);
                            }
                            index = index + 8 + st.as_str().len();
                        },
                        _ => {
                            proof {
                                assert(c[k as int] is Varchar);
                            }
                        },
                    }
                }
                k = k + 1;
            }
            proof {
                assert(c.subrange(0, c.len() as int) == c);
            }
            j = j + 1;
        }
        let mut header_vec = self.header.to_bytes(indexes.as_slice());
        proof {
            let starts = indexes@.map_values(|x: usize| x as int);
            assert(starts =~= starts_of(f));
        }
        header_vec.append(&mut vec);
        header_vec
    }
}

/// The little-endian `u64` at offset `off` of `b`, if `b` holds 8 bytes there.
pub open spec fn u64_at(b: Seq<u8>, off: int) -> Option<u64> {
    if 0 <= off && off + 8 <= b.len() {
        Some(spec_u64_from_le_bytes(b.subrange(off, off + 8)))
    } else {
        None
    }
}

/// The little-endian `u32` at offset `off` of `b`, if `b` holds 4 bytes there.
pub open spec fn u32_at(b: Seq<u8>, off: int) -> Option<u32> {
    if 0 <= off && off + 4 <= b.len() {
        Some(spec_u32_from_le_bytes(b.subrange(off, off + 4)))
    } else {
        None
    }
}

/// The value of type `t` at offset `off` of `b` and the offset after it;
/// `IOError` when `b` ends first, `InvalidUTF8` for a string that is not
/// valid UTF-8.
pub open spec fn value_at(b: Seq<u8>, off: int, t: TypeID) -> Result<(ValueView, int), DatabaseError> {
    match t {
        TypeID::Int => match u32_at(b, off) {
            Some(x) => Ok((ValueView::Int(x as i32), off + 4)),
            None => Err(DatabaseError::IOError),
        },
        TypeID::UInt => match u32_at(b, off) {
            Some(x) => Ok((ValueView::UInt(x), off + 4)),
            None => Err(DatabaseError::IOError),
        },
        TypeID::RowID => match u64_at(b, off) {
            Some(x) => Ok((ValueView::RowID(x), off + 8)),
            None => Err(DatabaseError::IOError),
        },
        TypeID::Varchar => match u64_at(b, off) {
            Some(len) => if off + 8 + len > b.len() {
                Err(DatabaseError::IOError)
            } else if !valid_utf8(b.subrange(off + 8, off + 8 + len)) {
                Err(DatabaseError::InvalidUTF8)
            } else {
                Ok((ValueView::Varchar(decode_utf8(b.subrange(off + 8, off + 8 + len))), off + 8 + len))
            },
            None => Err(DatabaseError::IOError),
        },
    }
}

/// `n` values of type `t` read one after the other from offset `off` of `b`,
/// or the first error.
pub open spec fn values_at(b: Seq<u8>, off: int, n: nat, t: TypeID) -> Result<Seq<ValueView>, DatabaseError>
    decreases n,
{
    if n == 0 {
        Ok(seq![])
    } else {
        match value_at(b, off, t) {
            Err(e) => Err(e),
            Ok((v, next)) => match values_at(b, next, (n - 1) as nat, t) {
                Ok(rest) => Ok(seq![v] + rest),
                Err(e) => Err(e),
            },
        }
    }
}

/// The column entries `j..count` of the header of `b`, or the first error:
/// `IOError` when `b` ends first, `Unknown` for an unknown type code.
pub open spec fn infos_at(b: Seq<u8>, j: int, count: int) -> Result<Seq<(TypeID, u64)>, DatabaseError>
    decreases count - j,
{
    if j >= count {
        Ok(seq![])
    } else {
        match u64_at(b, 24 + 16 * j) {
            None => Err(DatabaseError::IOError),
            Some(code) => match code_type(code) {
                None => Err(DatabaseError::Unknown),
                Some(t) => match u64_at(b, 32 + 16 * j) {
                    None => Err(DatabaseError::IOError),
                    Some(start) => match infos_at(b, j + 1, count) {
                        Ok(rest) => Ok(seq![(t, start)] + rest),
                        Err(e) => Err(e),
                    },
                },
            },
        }
    }
}

/// The header of `b`: row count, column count and column entries; `Unknown`
/// when the magic bytes differ, `IOError` when `b` ends first.
pub open spec fn header_at(b: Seq<u8>) -> Result<(u64, u64, Seq<(TypeID, u64)>), DatabaseError> {
    if b.len() < 8 {
        Err(DatabaseError::IOError)
    } else if b.subrange(0, 8) != magic() {
        Err(DatabaseError::Unknown)
    } else {
        match (u64_at(b, 8), u64_at(b, 16)) {
            (Some(rows), Some(columns)) => match infos_at(b, 0, columns as int) {
                Ok(infos) => Ok((rows, columns, infos)),
                Err(e) => Err(e),
            },
            _ => Err(DatabaseError::IOError),
        }
    }
}

/// The columns `j..` of `b` whose entries are `infos`, each read when
/// `pick(j)` holds and left empty otherwise; or the first error.
pub open spec fn columns_at(
    b: Seq<u8>,
    rows: u64,
    infos: Seq<(TypeID, u64)>,
    sel: Option<Seq<usize>>,
    j: int,
) -> Result<Seq<Seq<ValueView>>, DatabaseError>
    decreases infos.len() - j,
{
    if j < 0 || j >= infos.len() {
        Ok(seq![])
    } else {
        let this = if selected(sel, j) {
            values_at(b, infos[j].1 as int, rows as nat, infos[j].0)
        } else {
            Ok(seq![])
        };
        match this {
            Err(e) => Err(e),
            Ok(c) => match columns_at(b, rows, infos, sel, j + 1) {
                Ok(rest) => Ok(seq![c] + rest),
                Err(e) => Err(e),
            },
        }
    }
}

/// Column `j` is read: all columns are, or `j` is among the selected ones.
pub open spec fn selected(sel: Option<Seq<usize>>, j: int) -> bool {
    match sel {
        None => true,
        Some(s) => s.contains(j as usize),
    }
}

/// The data file that `b` holds, reading the columns that `sel` selects
/// (all for `None`), or the first error.
pub open spec fn decode(b: Seq<u8>, sel: Option<Seq<usize>>) -> Result<DataFileView, DatabaseError> {
    match header_at(b) {
        Err(e) => Err(e),
        Ok((rows, columns, infos)) => match columns_at(b, rows, infos, sel, 0) {
            Err(e) => Err(e),
            Ok(data) => Ok(
                DataFileView {
                    rows,
                    columns,
                    types: infos.map_values(|i: (TypeID, u64)| i.0),
                    data,
                },
            ),
        },
    }
}

/// `String::from_utf8`: the string whose UTF-8 bytes are `bytes`, or `None`
/// when they are not valid UTF-8.
#[verifier::external_body]
fn string_from_utf8(bytes: Vec<u8>) -> (r: Option<String>)
    ensures
        r is Some <==> valid_utf8(bytes@),
        r is Some ==> r->Some_0@ == decode_utf8(bytes@),
{
    match String::from_utf8(bytes) {
        Ok(s) => Some(s),
        Err(_) => None,
    }
}

/// The `u64` at offset `off` of `b`.
fn read_u64_at(b: &[u8], off: u64) -> (r: Option<u64>)
    ensures
        r == u64_at(b@, off as int),
{
    let len = b.len() as u64;
    if len < 8 || off > len - 8 {
        None
    } else {
        let o = off as usize;
        Some(vstd::bytes::u64_from_le_bytes(vstd::slice::slice_subrange(b, o, o + 8)))
    }
}

/// The `u32` at offset `off` of `b`.
fn read_u32_at(b: &[u8], off: u64) -> (r: Option<u32>)
    ensures
        r == u32_at(b@, off as int),
{
    let len = b.len() as u64;
    if len < 4 || off > len - 4 {
        None
    } else {
        let o = off as usize;
        Some(vstd::bytes::u32_from_le_bytes(vstd::slice::slice_subrange(b, o, o + 4)))
    }
}

/// The value of type `t` at offset `off` of `b` and the offset after it.
fn read_value(b: &[u8], off: u64, t: TypeID) -> (r: Result<(Value, u64), DatabaseError>)
    ensures
        match value_at(b@, off as int, t) {
            Ok((v, next)) => r is Ok && r->Ok_0.0@ == v && r->Ok_0.1 == next,
            Err(e) => r == Err::<(Value, u64), DatabaseError>(e),
        },
{
    let blen = b.len() as u64;
    match t {
        TypeID::Int => match read_u32_at(b, off) {
            Some(x) => Ok((Value::Int(#[verifier::truncate] (x as i32)), off + 4)),
            None => Err(DatabaseError::IOError),
        },
        TypeID::UInt => match read_u32_at(b, off) {
            Some(x) => Ok((Value::UInt(x), off + 4)),
            None => Err(DatabaseError::IOError),
        },
        TypeID::RowID => match read_u64_at(b, off) {
            Some(x) => Ok((Value::RowID(RowID(x)), off + 8)),
            None => Err(DatabaseError::IOError),
        },
        TypeID::Varchar => match read_u64_at(b, off) {
            Some(len) => {
                if len > blen - (off + 8) {
                    return Err(DatabaseError::IOError);
                }
                let start = (off + 8) as usize;
                let end = (off + 8 + len) as usize;
                let bytes = vstd::slice::slice_to_vec(vstd::slice::slice_subrange(b, start, end));
                match string_from_utf8(bytes) {
                    Some(s) => Ok((Value::Varchar(s), off + 8 + len)),
                    None => Err(DatabaseError::InvalidUTF8),
                }
            },
            None => Err(DatabaseError::IOError),
        },
    }
}

/// Reads the `rows` values of a column of type `column_info.0` that starts
/// at offset `column_info.1` of `b`.
pub fn parse_column(b: &[u8], rows: u64, column_info: (TypeID, u64)) -> (r: Result<Vec<Value>, DatabaseError>)
    ensures
        match values_at(b@, column_info.1 as int, rows as nat, column_info.0) {
            Ok(c) => r is Ok && column_view(r->Ok_0@) == c,
            Err(e) => r == Err::<Vec<Value>, DatabaseError>(e),
        },
{
    let typeid = column_info.0;
    let mut off = column_info.1;
    let mut vec: Vec<Value> = Vec::new();
    let mut i: u64 = 0;
    while i < rows
        invariant
            i <= rows,
            typeid == column_info.0,
            values_at(b@, column_info.1 as int, rows as nat, typeid) == match values_at(
                b@,
                off as int,
                (rows - i) as nat,
                typeid,
            ) {
                Ok(rest) => Ok::<Seq<ValueView>, DatabaseError>(column_view(vec@) + rest),
                Err(e) => Err(e),
            },
        decreases rows - i,
    {
        let ghost before = column_view(vec@);
        match read_value(b, off, typeid) {
            Ok((v, next)) => {
                proof {
                    let tail = values_at(b@, next as int, (rows - i - 1) as nat, typeid);
                    match tail {
                        Ok(rest) => {
                            assert(before + (seq![v@] + rest) == before.push(v@) + rest);
                        },
                        Err(_) => {},
                    }
                }
                vec.push(v);
                off = next;
                proof {
                    assert(column_view(vec@) =~= before.push(vec@.last()@));
                }
            },
            Err(e) => {
                proof {
                    assert(values_at(b@, off as int, (rows - i) as nat, typeid) == Err::<
                        Seq<ValueView>,
                        DatabaseError,
                    >(e));
                }
                return Err(e);
            },
        }
        i = i + 1;
    }
    proof {
        assert(column_view(vec@) + Seq::<ValueView>::empty() == column_view(vec@));
    }
    Ok(vec)
}

proof fn lemma_infos_len(b: Seq<u8>, j: int, count: int)
    requires
        j <= count,
    ensures
        infos_at(b, j, count) is Ok ==> infos_at(b, j, count)->Ok_0.len() == count - j,
    decreases count - j,
{
    if j < count {
        lemma_infos_len(b, j + 1, count);
    }
}

/// Whether `sel` holds `x`.
fn contains_index(sel: &Vec<usize>, x: usize) -> (r: bool)
    ensures
        r == sel@.contains(x),
{
    let mut i: usize = 0;
    while i < sel.len()
        invariant
            i <= sel@.len(),
            forall|k: int| 0 <= k < i ==> sel@[k] != x,
        decreases sel@.len() - i,
    {
        if sel[i] == x {
            return true;
        }
        i = i + 1;
    }
    false
}

impl ReadDataFileHeader {
    /// Reads the header at the start of `b`.
    pub fn parse(b: &[u8]) -> (r: Result<ReadDataFileHeader, DatabaseError>)
        ensures
            match header_at(b@) {
                Ok((rows, columns, infos)) => r is Ok && r->Ok_0.rows == rows && r->Ok_0.columns == columns
                    && r->Ok_0.column_info@ == infos,
                Err(e) => r == Err::<ReadDataFileHeader, DatabaseError>(e),
            },
    {
        if b.len() < 8 {
            return Err(DatabaseError::IOError);
        }
        let mut i: usize = 0;
        let magic_bytes: [u8; 8] = [0x53u8, 0x44u8, 0x4du8, 0x53u8, 0x19u8, 0x03u8, 0x4au8, 0x53u8];
        proof {
            assert(magic_bytes@ =~= magic());
        }
        while i < 8
            invariant
                i <= 8,
                b@.len() >= 8,
                magic_bytes@ == magic(),
                forall|k: int| 0 <= k < i ==> b@[k] == magic()[k],
            decreases 8 - i,
        {
            if b[i] != magic_bytes[i] {
                proof {
                    assert(b@.subrange(0, 8)[i as int] != magic()[i as int]);
                }
                return Err(DatabaseError::Unknown);
            }
            i = i + 1;
        }
        proof {
            assert(b@.subrange(0, 8) =~= magic());
        }
        let rows = match read_u64_at(b, 8) {
            Some(x) => x,
            None => {
                return Err(DatabaseError::IOError);
            },
        };
        let columns = match read_u64_at(b, 16) {
            Some(x) => x,
            None => {
                return Err(DatabaseError::IOError);
            },
        };
        let mut column_info: Vec<(TypeID, u64)> = Vec::new();
        let mut j: u64 = 0;
        let mut pos: u64 = 24;
        let blen = b.len();
        while j < columns
            invariant
                blen == b@.len(),
                b@.len() >= 8,
                b@.subrange(0, 8) == magic(),
                u64_at(b@, 8) == Some(rows),
                u64_at(b@, 16) == Some(columns),
                j <= columns,
                pos == 24 + 16 * j,
                infos_at(b@, 0, columns as int) == match infos_at(b@, j as int, columns as int) {
                    Ok(rest) => Ok::<Seq<(TypeID, u64)>, DatabaseError>(column_info@ + rest),
                    Err(e) => Err(e),
                },
            decreases columns - j,
        {
            let ghost before = column_info@;
            let code = match read_u64_at(b, pos) {
                Some(x) => x,
                None => {
                    return Err(DatabaseError::IOError);
                },
            };
            let typeid = if code == 0 {
                TypeID::Int
            } else if code == 1 {
                TypeID::UInt
            } else if code == 2 {
                TypeID::RowID
            } else if code == 3 {
                TypeID::Varchar
            } else {
                return Err(DatabaseError::Unknown);
            };
            let start = match read_u64_at(b, pos + 8) {
                Some(x) => x,
                None => {
                    return Err(DatabaseError::IOError);
                },
            };
            column_info.push((typeid, start));
            proof {
                let tail = infos_at(b@, j + 1, columns as int);
                match tail {
                    Ok(rest) => {
                        assert(before + (seq![(typeid, start)] + rest) == column_info@ + rest);
                    },
                    Err(_) => {},
                }
            }
            j = j + 1;
            pos = pos + 16;
        }
        proof {
            assert(column_info@ + Seq::<(TypeID, u64)>::empty() == column_info@);
        }
        Ok(ReadDataFileHeader { rows, columns, column_info })
    }
}

impl DataFile {
    /// Reads the columns of `b` whose entries are `infos`: each one that
    /// `sel` selects (all for `None`) is read, the others are left empty.
    fn parse_data(
        b: &[u8],
        rows: u64,
        infos: &Vec<(TypeID, u64)>,
        sel: Option<&Vec<usize>>,
    ) -> (r: Result<TableChunk, DatabaseError>)
        ensures
            ({
                let s = match sel {
                    Some(v) => Some(v@),
                    None => None::<Seq<usize>>,
                };
                match columns_at(b@, rows, infos@, s, 0) {
                    Ok(d) => r is Ok && chunk_view(r->Ok_0@) == d,
                    Err(e) => r == Err::<TableChunk, DatabaseError>(e),
                }
            }),
    {
        let ghost s = match sel {
            Some(v) => Some(v@),
            None => None::<Seq<usize>>,
        };
        let mut data: TableChunk = Vec::new();
        let mut j: usize = 0;
        while j < infos.len()
            invariant
                j <= infos@.len(),
                s == match sel {
                    Some(v) => Some(v@),
                    None => None::<Seq<usize>>,
                },
                columns_at(b@, rows, infos@, s, 0) == match columns_at(b@, rows, infos@, s, j as int) {
                    Ok(rest) => Ok::<Seq<Seq<ValueView>>, DatabaseError>(chunk_view(data@) + rest),
                    Err(e) => Err(e),
                },
            decreases infos@.len() - j,
        {
            let ghost before = chunk_view(data@);
            let pick = match sel {
                None => true,
                Some(v) => contains_index(v, j),
            };
            let column = if pick {
                match parse_column(b, rows, infos[j]) {
                    Ok(c) => c,
                    Err(e) => {
                        return Err(e);
                    },
                }
            } else {
                let empty: Vec<Value> = Vec::new();
                proof {
                    assert(column_view(empty@) =~= Seq::<ValueView>::empty());
                }
                empty
            };
            proof {
                assert(selected(s, j as int) == pick);
                let tail = columns_at(b@, rows, infos@, s, j + 1);
                match tail {
                    Ok(rest) => {
                        assert(before + (seq![column_view(column@)] + rest) == before.push(column_view(column@))
                            + rest);
                    },
                    Err(_) => {},
                }
            }
            data.push(column);
            proof {
                assert(chunk_view(data@) =~= before.push(column_view(column@)));
            }
            j = j + 1;
        }
        proof {
            assert(chunk_view(data@) + Seq::<Seq<ValueView>>::empty() == chunk_view(data@));
        }
        Ok(data)
    }

    /// Reads the data file held in `b`.
    pub fn parse(b: &[u8]) -> (r: Result<DataFile, DatabaseError>)
        ensures
            match decode(b@, None) {
                Ok(f) => r is Ok && r->Ok_0.view_of() == f,
                Err(e) => r == Err::<DataFile, DatabaseError>(e),
            },
    {
        Self::parse_selected(b, None)
    }

    /// Reads the data file held in `b`, but only the selected columns; the
    /// others are left empty.
    pub fn parse_columns(b: &[u8], column_indexes: Columns) -> (r: Result<DataFile, DatabaseError>)
        ensures
            ({
                let s = match column_indexes {
                    Columns::All => None::<Seq<usize>>,
                    Columns::Selection(v) => Some(v@),
                };
                match decode(b@, s) {
                    Ok(f) => r is Ok && r->Ok_0.view_of() == f,
                    Err(e) => r == Err::<DataFile, DatabaseError>(e),
                }
            }),
    {
        match column_indexes {
            Columns::All => Self::parse_selected(b, None),
            Columns::Selection(sel) => Self::parse_selected(b, Some(&sel)),
        }
    }

    fn parse_selected(b: &[u8], sel: Option<&Vec<usize>>) -> (r: Result<DataFile, DatabaseError>)
        ensures
            ({
                let s = match sel {
                    Some(v) => Some(v@),
                    None => None::<Seq<usize>>,
                };
                match decode(b@, s) {
                    Ok(f) => r is Ok && r->Ok_0.view_of() == f,
                    Err(e) => r == Err::<DataFile, DatabaseError>(e),
                }
            }),
    {
        let header = match ReadDataFileHeader::parse(b) {
            Ok(h) => h,
            Err(e) => {
                return Err(e);
            },
        };
        let data = match Self::parse_data(b, header.rows, &header.column_info, sel) {
            Ok(d) => d,
            Err(e) => {
                return Err(e);
            },
        };
        let mut types: Vec<TypeID> = Vec::new();
        let mut j: usize = 0;
        while j < header.column_info.len()
            invariant
                j <= header.column_info@.len(),
                types@ == header.column_info@.subrange(0, j as int).map_values(|i: (TypeID, u64)| i.0),
            decreases header.column_info@.len() - j,
        {
            types.push(header.column_info[j].0);
            j = j + 1;
            proof {
                assert(types@ =~= header.column_info@.subrange(0, j as int).map_values(|i: (TypeID, u64)| i.0));
            }
        }
        proof {
            assert(header.column_info@.subrange(0, header.column_info@.len() as int) == header.column_info@);
        }
        Ok(DataFile { header: DataFileHeader { rows: header.rows, columns: header.columns, column_info: types }, data })
    }
}

/// `f` is a consistent data file: as many types and columns as the header
/// announces, `rows` values in every column, each of its column's type, and
/// every offset fits a `usize`.
pub open spec fn well_formed(f: DataFileView) -> bool {
    &&& f.types.len() == f.columns
    &&& f.data.len() == f.columns
    &&& forall|j: int| 0 <= j < f.columns ==> (#[trigger] f.data[j]).len() == f.rows
    &&& forall|j: int, k: int|
        0 <= j < f.columns && 0 <= k < f.rows ==> type_of(#[trigger] f.data[j][k]) == f.types[j]
    &&& writable(f)
}

proof fn lemma_u64_roundtrip(x: u64)
    ensures
        spec_u64_to_le_bytes(x).len() == 8,
        spec_u64_from_le_bytes(spec_u64_to_le_bytes(x)) == x,
{
    vstd::bytes::lemma_auto_spec_u64_to_from_le_bytes();
}

proof fn lemma_u32_roundtrip(x: u32)
    ensures
        spec_u32_to_le_bytes(x).len() == 4,
        spec_u32_from_le_bytes(spec_u32_to_le_bytes(x)) == x,
{
    vstd::bytes::lemma_auto_spec_u32_to_from_le_bytes();
    assert(spec_u32_to_le_bytes(x).len() == 4);
}

proof fn lemma_i32_cast(x: i32)
    ensures
        ((x as u32) as i32) == x,
{
    assert(((x as u32) as i32) == x) by (bit_vector);
}

proof fn lemma_column_bytes_front(c: Seq<ValueView>)
    requires
        c.len() > 0,
    ensures
        column_bytes(c) == value_bytes(c[0]) + column_bytes(c.drop_first()),
    decreases c.len(),
{
    if c.len() == 1 {
        assert(c.drop_last() =~= Seq::<ValueView>::empty());
        assert(c.drop_first() =~= Seq::<ValueView>::empty());
        assert(column_bytes(c.drop_first()) == Seq::<u8>::empty());
    } else {
        lemma_column_bytes_front(c.drop_last());
        assert(c.drop_last().drop_first() == c.drop_first().drop_last());
        assert(c.drop_first().last() == c.last());
    }
}

/// A value of type `t` reads back from its bytes.
proof fn lemma_value_read(b: Seq<u8>, off: int, v: ValueView, t: TypeID)
    requires
        type_of(v) == t,
        0 <= off,
        off + value_bytes(v).len() <= b.len(),
        b.subrange(off, off + value_bytes(v).len()) == value_bytes(v),
        v is Varchar ==> encode_utf8(v->Varchar_0).len() <= u64::MAX,
    ensures
        value_at(b, off, t) == Ok::<(ValueView, int), DatabaseError>((v, off + value_bytes(v).len())),
{
    match v {
        ValueView::Int(x) => {
            lemma_u32_roundtrip(x as u32);
            lemma_i32_cast(x);
        },
        ValueView::UInt(x) => {
            lemma_u32_roundtrip(x);
        },
        ValueView::RowID(x) => {
            lemma_u64_roundtrip(x);
        },
        ValueView::Varchar(s) => {
            let e = encode_utf8(s);
            lemma_u64_roundtrip(e.len() as u64);
            assert(b.subrange(off, off + 8) == spec_u64_to_le_bytes(e.len() as u64)) by {
                assert(b.subrange(off, off + 8) =~= value_bytes(v).subrange(0, 8));
            }
            assert(b.subrange(off + 8, off + 8 + e.len()) =~= e) by {
                assert(b.subrange(off + 8, off + 8 + e.len()) =~= value_bytes(v).subrange(8, 8 + e.len() as int));
            }
            vstd::utf8::encode_utf8_valid_utf8(s);
            vstd::utf8::encode_utf8_decode_utf8(s);
        },
    }
}

proof fn lemma_string_span_len(c: Seq<ValueView>)
    requires
        forall|k: int| 0 <= k < c.len() ==> (#[trigger] c[k]) is Varchar,
    ensures
        string_span(c) == column_bytes(c).len(),
    decreases c.len(),
{
    if c.len() > 0 {
        assert forall|k: int| 0 <= k < c.drop_last().len() implies (#[trigger] c.drop_last()[k]) is Varchar by {
            assert(c[k] is Varchar);
        }
        lemma_string_span_len(c.drop_last());
        assert(c.last() is Varchar);
        lemma_u64_roundtrip(encode_utf8(c.last()->Varchar_0).len() as u64);
    }
}

proof fn lemma_fixed_span_len(c: Seq<ValueView>, t: TypeID, w: int)
    requires
        t != TypeID::Varchar,
        w == if t == TypeID::RowID { 8int } else { 4int },
        forall|k: int| 0 <= k < c.len() ==> type_of(#[trigger] c[k]) == t,
    ensures
        column_bytes(c).len() == w * c.len(),
    decreases c.len(),
{
    if c.len() > 0 {
        assert forall|k: int| 0 <= k < c.drop_last().len() implies type_of(#[trigger] c.drop_last()[k]) == t by {
            assert(type_of(c[k]) == t);
        }
        lemma_fixed_span_len(c.drop_last(), t, w);
        assert(type_of(c.last()) == t);
        match c.last() {
            ValueView::Int(x) => lemma_u32_roundtrip(x as u32),
            ValueView::UInt(x) => lemma_u32_roundtrip(x),
            ValueView::RowID(x) => lemma_u64_roundtrip(x),
            ValueView::Varchar(_) => {},
        }
        assert(w * c.len() == w * (c.len() - 1) + w) by (nonlinear_arith);
    }
}

/// The span that the offset computation counts is the column's byte length.
proof fn lemma_span_len(c: Seq<ValueView>, t: TypeID)
    requires
        forall|k: int| 0 <= k < c.len() ==> type_of(#[trigger] c[k]) == t,
    ensures
        column_span(c, t) == column_bytes(c).len(),
{
    match t {
        TypeID::Varchar => {
            assert forall|k: int| 0 <= k < c.len() implies (#[trigger] c[k]) is Varchar by {
                assert(type_of(c[k]) == TypeID::Varchar);
            }
            lemma_string_span_len(c);
        },
        TypeID::RowID => lemma_fixed_span_len(c, t, 8),
        _ => lemma_fixed_span_len(c, t, 4),
    }
}

/// A column of type `t` reads back from its bytes.
proof fn lemma_values_read(b: Seq<u8>, off: int, c: Seq<ValueView>, t: TypeID)
    requires
        forall|k: int| 0 <= k < c.len() ==> type_of(#[trigger] c[k]) == t,
        forall|k: int|
            0 <= k < c.len() && (#[trigger] c[k]) is Varchar ==> encode_utf8(c[k]->Varchar_0).len() <= u64::MAX,
        0 <= off,
        off + column_bytes(c).len() <= b.len(),
        b.subrange(off, off + column_bytes(c).len()) == column_bytes(c),
    ensures
        values_at(b, off, c.len(), t) == Ok::<Seq<ValueView>, DatabaseError>(c),
    decreases c.len(),
{
    if c.len() == 0 {
        assert(c =~= Seq::<ValueView>::empty());
    } else {
        lemma_column_bytes_front(c);
        let v = c[0];
        let vb = value_bytes(v);
        let rest = c.drop_first();
        assert(b.subrange(off, off + vb.len()) =~= column_bytes(c).subrange(0, vb.len() as int));
        assert(column_bytes(c).subrange(0, vb.len() as int) =~= vb);
        assert(column_bytes(c).subrange(vb.len() as int, column_bytes(c).len() as int) =~= column_bytes(rest));
        assert(type_of(v) == t);
        lemma_value_read(b, off, v, t);
        assert forall|k: int| 0 <= k < rest.len() implies type_of(#[trigger] rest[k]) == t by {
            assert(type_of(c[k + 1]) == t);
        }
        assert forall|k: int|
            0 <= k < rest.len() && (#[trigger] rest[k]) is Varchar implies encode_utf8(rest[k]->Varchar_0).len()
            <= u64::MAX by {
            assert(c[k + 1] is Varchar);
        }
        assert(b.subrange(off + vb.len(), off + vb.len() + column_bytes(rest).len()) =~= column_bytes(
            c,
        ).subrange(vb.len() as int, column_bytes(c).len() as int));
        lemma_values_read(b, off + vb.len(), rest, t);
        assert(seq![v] + rest =~= c);
    }
}

proof fn lemma_info_bytes(types: Seq<TypeID>, starts: Seq<int>, n: int, i: int)
    requires
        0 <= i < n,
        n <= types.len(),
        n <= starts.len(),
    ensures
        info_bytes(types, starts, n).len() == 16 * n,
        info_bytes(types, starts, n).subrange(16 * i, 16 * i + 8) == spec_u64_to_le_bytes(type_code(types[i])),
        info_bytes(types, starts, n).subrange(16 * i + 8, 16 * i + 16) == spec_u64_to_le_bytes(starts[i] as u64),
    decreases n,
{
    lemma_u64_roundtrip(type_code(types[n - 1]));
    lemma_u64_roundtrip(starts[n - 1] as u64);
    let prev = info_bytes(types, starts, n - 1);
    let cur = info_bytes(types, starts, n);
    if n - 1 > 0 {
        if i < n - 1 {
            lemma_info_bytes(types, starts, n - 1, i);
            assert(cur.subrange(16 * i, 16 * i + 8) =~= prev.subrange(16 * i, 16 * i + 8));
            assert(cur.subrange(16 * i + 8, 16 * i + 16) =~= prev.subrange(16 * i + 8, 16 * i + 16));
        } else {
            lemma_info_bytes(types, starts, n - 1, 0);
            assert(cur.subrange(16 * i, 16 * i + 8) =~= spec_u64_to_le_bytes(type_code(types[i])));
            assert(cur.subrange(16 * i + 8, 16 * i + 16) =~= spec_u64_to_le_bytes(starts[i] as u64));
        }
    } else {
        assert(prev == Seq::<u8>::empty());
        assert(cur.subrange(16 * i, 16 * i + 8) =~= spec_u64_to_le_bytes(type_code(types[i])));
        assert(cur.subrange(16 * i + 8, 16 * i + 16) =~= spec_u64_to_le_bytes(starts[i] as u64));
    }
}

proof fn lemma_data_prefix(data: Seq<Seq<ValueView>>, j: int, n: int)
    requires
        0 <= j < n <= data.len(),
    ensures
        data_bytes(data, j).len() + column_bytes(data[j]).len() <= data_bytes(data, n).len(),
        data_bytes(data, n).subrange(
            data_bytes(data, j).len() as int,
            (data_bytes(data, j).len() + column_bytes(data[j]).len()) as int,
        ) == column_bytes(data[j]),
    decreases n,
{
    if n - 1 > j {
        lemma_data_prefix(data, j, n - 1);
        let prev = data_bytes(data, n - 1);
        let a = data_bytes(data, j).len() as int;
        let e = a + column_bytes(data[j]).len();
        assert(data_bytes(data, n).subrange(a, e) =~= prev.subrange(a, e));
    } else {
        let a = data_bytes(data, j).len() as int;
        assert(data_bytes(data, n).subrange(a, a + column_bytes(data[j]).len()) =~= column_bytes(data[j]));
    }
}

proof fn lemma_starts(f: DataFileView, j: int)
    requires
        well_formed(f),
        0 <= j <= f.columns,
    ensures
        column_start(header_len(f.columns), f.data, f.types, j) == header_len(f.columns) + data_bytes(f.data, j).len(),
    decreases j,
{
    if j > 0 {
        lemma_starts(f, j - 1);
        assert forall|k: int| 0 <= k < f.data[j - 1].len() implies type_of(#[trigger] f.data[j - 1][k])
            == f.types[j - 1] by {
            assert(f.data[j - 1].len() == f.rows);
        }
        lemma_span_len(f.data[j - 1], f.types[j - 1]);
    }
}

proof fn lemma_infos_read(f: DataFileView, j: int)
    requires
        well_formed(f),
        0 <= j <= f.columns,
    ensures
        infos_at(file_bytes(f), j, f.columns as int) == Ok::<Seq<(TypeID, u64)>, DatabaseError>(
            Seq::new(
                (f.columns - j) as nat,
                |i: int| (f.types[j + i], starts_of(f)[j + i] as u64),
            ),
        ),
    decreases f.columns - j,
{
    let n = f.columns as int;
    let b = file_bytes(f);
    if j < n {
        lemma_infos_read(f, j + 1);
        let info = info_bytes(f.types, starts_of(f), n);
        lemma_info_bytes(f.types, starts_of(f), n, j);
        let head = magic() + spec_u64_to_le_bytes(f.rows) + spec_u64_to_le_bytes(f.columns);
        lemma_u64_roundtrip(f.rows);
        lemma_u64_roundtrip(f.columns);
        assert(head.len() == 24);
        assert(b == head + info + data_bytes(f.data, n));
        assert(b.subrange(24 + 16 * j, 24 + 16 * j + 8) =~= info.subrange(16 * j, 16 * j + 8));
        assert(b.subrange(32 + 16 * j, 32 + 16 * j + 8) =~= info.subrange(16 * j + 8, 16 * j + 16));
        lemma_u64_roundtrip(type_code(f.types[j]));
        lemma_u64_roundtrip(starts_of(f)[j] as u64);
        assert(Seq::new((n - j) as nat, |i: int| (f.types[j + i], starts_of(f)[j + i] as u64)) =~= seq![
            (f.types[j], starts_of(f)[j] as u64),
        ] + Seq::new((n - (j + 1)) as nat, |i: int| (f.types[j + 1 + i], starts_of(f)[j + 1 + i] as u64)));
    } else {
        assert(Seq::new((n - j) as nat, |i: int| (f.types[j + i], starts_of(f)[j + i] as u64)) =~= Seq::<
            (TypeID, u64),
        >::empty());
    }
}

proof fn lemma_columns_read(f: DataFileView, infos: Seq<(TypeID, u64)>, j: int)
    requires
        well_formed(f),
        0 <= j <= f.columns,
        infos == Seq::new(f.columns as nat, |i: int| (f.types[i], starts_of(f)[i] as u64)),
    ensures
        columns_at(file_bytes(f), f.rows, infos, None, j) == Ok::<Seq<Seq<ValueView>>, DatabaseError>(
            f.data.subrange(j, f.columns as int),
        ),
    decreases f.columns - j,
{
    let n = f.columns as int;
    let b = file_bytes(f);
    let hl = header_len(f.columns);
    if j < n {
        lemma_columns_read(f, infos, j + 1);
        let c = f.data[j];
        let t = f.types[j];
        lemma_starts(f, j);
        lemma_starts(f, n);
        lemma_column_start_mono(hl, f.data, f.types, j, n);
        lemma_data_prefix(f.data, j, n);
        let info = info_bytes(f.types, starts_of(f), n);
        lemma_info_bytes(f.types, starts_of(f), n, 0);
        let head = magic() + spec_u64_to_le_bytes(f.rows) + spec_u64_to_le_bytes(f.columns) + info;
        lemma_u64_roundtrip(f.rows);
        lemma_u64_roundtrip(f.columns);
        assert(head.len() == hl);
        let d = data_bytes(f.data, n);
        assert(b == head + d);
        let off = hl + data_bytes(f.data, j).len();
        assert(starts_of(f)[j] == off);
        assert(b.subrange(off, off + column_bytes(c).len()) =~= d.subrange(
            data_bytes(f.data, j).len() as int,
            (data_bytes(f.data, j).len() + column_bytes(c).len()) as int,
        ));
        assert forall|k: int| 0 <= k < c.len() implies type_of(#[trigger] c[k]) == t by {
            assert(c.len() == f.rows);
        }
        assert forall|k: int| 0 <= k < c.len() && (#[trigger] c[k]) is Varchar implies encode_utf8(
            c[k]->Varchar_0,
        ).len() <= u64::MAX by {
            assert(c.len() == f.rows);
            assert(t == TypeID::Varchar);
            lemma_string_span_prefix(c, k);
            lemma_string_span_prefix(c, k + 1);
            assert(c.subrange(0, k + 1).drop_last() == c.subrange(0, k));
            lemma_column_start_mono(hl, f.data, f.types, j + 1, n);
            lemma_string_span_nonneg(c.subrange(0, k));
        }
        lemma_values_read(b, off, c, t);
        assert(infos[j] == (t, off as u64));
        assert(f.data.subrange(j, n) =~= seq![c] + f.data.subrange(j + 1, n));
    } else {
        assert(f.data.subrange(j, n) =~= Seq::<Seq<ValueView>>::empty());
    }
}

/// A consistent data file reads back from its bytes: [`DataFile::parse`]
/// of what [`DataFile::to_bytes`] wrote gives the file back.
pub proof fn lemma_parse_to_bytes(f: DataFileView)
    requires
        well_formed(f),
    ensures
        decode(file_bytes(f), None) == Ok::<DataFileView, DatabaseError>(f),
{
    let b = file_bytes(f);
    let n = f.columns as int;
    let info = info_bytes(f.types, starts_of(f), n);
    lemma_u64_roundtrip(f.rows);
    lemma_u64_roundtrip(f.columns);
    if n > 0 {
        lemma_info_bytes(f.types, starts_of(f), n, 0);
    } else {
        assert(info == Seq::<u8>::empty());
    }
    let head = magic() + spec_u64_to_le_bytes(f.rows) + spec_u64_to_le_bytes(f.columns);
    assert(b.subrange(0, 8) =~= magic());
    assert(b.subrange(8, 16) =~= spec_u64_to_le_bytes(f.rows));
    assert(b.subrange(16, 24) =~= spec_u64_to_le_bytes(f.columns));
    lemma_infos_read(f, 0);
    let infos = Seq::new(f.columns as nat, |i: int| (f.types[i], starts_of(f)[i] as u64));
    assert(Seq::new((f.columns - 0) as nat, |i: int| (f.types[0 + i], starts_of(f)[0 + i] as u64)) =~= infos);
    lemma_columns_read(f, infos, 0);
    assert(f.data.subrange(0, n) =~= f.data);
    assert(infos.map_values(|i: (TypeID, u64)| i.0) =~= f.types);
}

/// The columns `d` of a file (numbered from `j`) as a selective read gives
/// them: selected columns whole, the others empty.
pub open spec fn selected_data(d: Seq<Seq<ValueView>>, sel: Option<Seq<usize>>, j: int) -> Seq<Seq<ValueView>> {
    Seq::new(d.len(), |i: int| if selected(sel, j + i) { d[i] } else { seq![] })
}

proof fn lemma_columns_sel(
    b: Seq<u8>,
    rows: u64,
    infos: Seq<(TypeID, u64)>,
    sel: Option<Seq<usize>>,
    j: int,
    d: Seq<Seq<ValueView>>,
)
    requires
        j >= 0,
        columns_at(b, rows, infos, None, j) == Ok::<Seq<Seq<ValueView>>, DatabaseError>(d),
    ensures
        columns_at(b, rows, infos, sel, j) == Ok::<Seq<Seq<ValueView>>, DatabaseError>(selected_data(d, sel, j)),
    decreases infos.len() - j,
{
    if j >= infos.len() {
        assert(selected_data(d, sel, j) =~= Seq::<Seq<ValueView>>::empty());
    } else {
        let c = values_at(b, infos[j].1 as int, rows as nat, infos[j].0)->Ok_0;
        let r = columns_at(b, rows, infos, None, j + 1)->Ok_0;
        assert(d == seq![c] + r);
        lemma_columns_sel(b, rows, infos, sel, j + 1, r);
        let this: Seq<ValueView> = if selected(sel, j) { c } else { seq![] };
        assert(seq![this] + selected_data(r, sel, j + 1) =~= selected_data(d, sel, j));
    }
}

/// A consistent data file reads back from its bytes column by column:
/// [`DataFile::parse_columns`] of what [`DataFile::to_bytes`] wrote gives the
/// selected columns whole and the others empty, with the file's header.
pub proof fn lemma_parse_columns_to_bytes(f: DataFileView, sel: Option<Seq<usize>>)
    requires
        well_formed(f),
    ensures
        decode(file_bytes(f), sel) == Ok::<DataFileView, DatabaseError>(
            DataFileView { data: selected_data(f.data, sel, 0), ..f },
        ),
{
    lemma_parse_to_bytes(f);
    let b = file_bytes(f);
    let (rows, columns, infos) = header_at(b)->Ok_0;
    lemma_columns_sel(b, rows, infos, sel, 0, f.data);
}

/// The bytes of a consistent data file are reproduced exactly by reading
/// them and writing the result again: [`DataFile::to_bytes`] of what
/// [`DataFile::parse`] read from them gives the same bytes.
pub proof fn lemma_bytes_roundtrip(b: Seq<u8>, f: DataFileView)
    requires
        well_formed(f),
        b == file_bytes(f),
    ensures
        decode(b, None) is Ok,
        file_bytes(decode(b, None)->Ok_0) == b,
{
    lemma_parse_to_bytes(f);
}

impl DataFile {
    /// Whether the file can be written: see [`writable`].
    pub fn can_write(&self) -> (r: bool)
        ensures
            r == writable(self.view_of()),
    {
        let ghost f = self.view_of();
        let ghost w = written(f.data, f.types);
        if self.header.columns > ((usize::MAX - 24) / 16) as u64 {
            return false;
        }
        let hdr: usize = 24 + self.header.columns as usize * 16;
        let n = if self.data.len() <= self.header.column_info.len() {
            self.data.len()
        } else {
            self.header.column_info.len()
        };
        let mut index: usize = hdr;
        let mut j: usize = 0;
        while j < n
            invariant
                f == self.view_of(),
                n == w,
                w == written(f.data, f.types),
                f.data.len() == self.data@.len(),
                hdr == header_len(f.columns),
                j <= n,
                index == column_start(hdr as int, f.data, f.types, j as int),
                forall|i: int|
                    0 <= i < j && f.types[i] == TypeID::Varchar ==> forall|k: int|
                        0 <= k < f.data[i].len() ==> (#[trigger] f.data[i][k]) is Varchar,
            decreases n - j,
        {
            let column = &self.data[j];
            let ghost c = f.data[j as int];
            proof {
                assert(c == column_view(column@));
                lemma_column_start_mono(hdr as int, f.data, f.types, j + 1, w);
            }
            match self.header.column_info[j] {
                TypeID::Varchar => {
                    let ghost start = index as int;
                    let mut k: usize = 0;
                    while k < column.len()
                        invariant
                            k <= column@.len(),
                            c == column_view(column@),
                            f == self.view_of(),
                            j < n,
                            n == w,
                            w == written(f.data, f.types),
                            c == f.data[j as int],
                            f.types[j as int] == TypeID::Varchar,
                            hdr == header_len(f.columns),
                            start == column_start(hdr as int, f.data, f.types, j as int),
                            column_start(hdr as int, f.data, f.types, j + 1) <= column_start(
                                hdr as int,
                                f.data,
                                f.types,
                                w,
                            ),
                            index == start + string_span(c.subrange(0, k as int)),
                            forall|q: int| 0 <= q < k ==> (#[trigger] c[q]) is Varchar,
                        decreases column@.len() - k,
                    {
                        proof {
                            assert(c.subrange(0, k + 1).drop_last() == c.subrange(0, k as int));
                            assert(c[k as int] == column@[k as int]@);
                        }
                        match &column[k] {
                            Value::Varchar(st) => {
                                let len = st.as_str().as_bytes().len();
                                if index > usize::MAX - 8 || len > usize::MAX - 8 - index {
                                    proof {
                                        lemma_string_span_prefix(c, k + 1);
                                        assert(c.subrange(0, k + 1).last() == c[k as int]);
                                        assert(string_span(c.subrange(0, k + 1)) == string_span(c.subrange(0, k as int))
                                            + 8 + len);
                                        assert(column_start(hdr as int, f.data, f.types, j + 1) == start + string_span(c));
                                    }
                                    return false;
                                }
                                index = index + 8 + len;
                            },
                            _ => {
                                return false;
                            },
                        }
                        k = k + 1;
                    }
                    proof {
                        assert(c.subrange(0, c.len() as int) == c);
                    }
                },
                TypeID::RowID => {
                    if column.len() > (usize::MAX - index) / 8 {
                        return false;
                    }
                    index = index + 8 * column.len();
                },
                _ => {
                    if column.len() > (usize::MAX - index) / 4 {
                        return false;
                    }
                    index = index + 4 * column.len();
                },
            }
            j = j + 1;
        }
        true
    }
}

} // verus!
