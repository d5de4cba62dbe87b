//! Pull-based row operators: a table scan over a buffer pool, a blocking
//! sort, and an equi hash join whose build side is the left child.

use vstd::multiset::Multiset;
use vstd::prelude::*;

use super::{PageID, RecordID, SlotID};

verus! {

/// A value of a row.
#[derive(Debug)]
pub enum Value {
    Bool(bool),
    Int(i32),
    Varchar(String),
    PageID(PageID),
    SlotID(SlotID),
    RecordID(RecordID),
}

/// Mathematical view of a [`Value`]: a string is its characters.
pub enum ValueView {
    Bool(bool),
    Int(i32),
    Varchar(Seq<char>),
    PageID(PageID),
    SlotID(SlotID),
    RecordID(RecordID),
}

impl View for Value {
    type V = ValueView;

    open spec fn view(&self) -> ValueView {
        match self {
            Value::Bool(b) => ValueView::Bool(*b),
            Value::Int(x) => ValueView::Int(*x),
            Value::Varchar(s) => ValueView::Varchar(s@),
            Value::PageID(p) => ValueView::PageID(*p),
            Value::SlotID(s) => ValueView::SlotID(*s),
            Value::RecordID(r) => ValueView::RecordID(*r),
        }
    }
}

impl Value {
    /// A copy of this value.
    pub fn copy(&self) -> (v: Value)
        ensures
            v@ == self@,
    {
        match self {
            Value::Bool(b) => Value::Bool(*b),
            Value::Int(x) => Value::Int(*x),
            Value::Varchar(s) => Value::Varchar(s.clone()),
            Value::PageID(p) => Value::PageID(*p),
            Value::SlotID(s) => Value::SlotID(*s),
            Value::RecordID(r) => Value::RecordID(*r),
        }
    }

    /// Whether `self` and `other` are the same value.
    pub fn equals(&self, other: &Value) -> (r: bool)
        ensures
            r == (self@ == other@),
    {
        match (self, other) {
            (Value::Bool(x), Value::Bool(y)) => *x == *y,
            (Value::Int(x), Value::Int(y)) => *x == *y,
            (Value::Varchar(x), Value::Varchar(y)) => *x == *y,
            (Value::PageID(x), Value::PageID(y)) => x.0 == y.0,
            (Value::SlotID(x), Value::SlotID(y)) => x.0 == y.0,
            (Value::RecordID(x), Value::RecordID(y)) => x.page_id.0 == y.page_id.0 && x.slot_id.0 == y.slot_id.0,
            _ => false,
        }
    }
}

/// A row: its values.
pub struct Record {
    pub record: Vec<Value>,
}

/// The values of a row, by view.
pub open spec fn values_view(v: Seq<Value>) -> Seq<ValueView> {
    v.map_values(|x: Value| x@)
}

impl Record {
    /// The row holding `record`.
    pub fn from(record: Vec<Value>) -> (r: Record)
        ensures
            r.record@ == record@,
    {
        Record { record }
    }

    /// The row's values, by view.
    pub open spec fn values(&self) -> Seq<ValueView> {
        values_view(self.record@)
    }

    /// Value `i` of the row.
    pub fn get(&self, i: usize) -> (v: &Value)
        requires
            i < self.record@.len(),
        ensures
            *v == self.record@[i as int],
    {
        &self.record[i]
    }

    /// Number of values of the row.
    pub fn len(&self) -> (n: usize)
        ensures
            n == self.record@.len(),
    {
        self.record.len()
    }

    /// A copy of the row.
    pub fn copy(&self) -> (r: Record)
        ensures
            r.values() == self.values(),
    {
        let mut out: Vec<Value> = Vec::new();
        let mut i: usize = 0;
        while i < self.record.len()
            invariant
                i <= self.record@.len(),
                out@.len() == i,
                forall|k: int| 0 <= k < i ==> (#[trigger] out@[k])@ == self.record@[k]@,
            decreases self.record@.len() - i,
        {
            out.push(self.record[i].copy());
            i = i + 1;
        }
        let r = Record { record: out };
        proof {
            assert(r.values() =~= self.values());
        }
        r
    }
}

/// A pull-based operator producing rows.
pub trait Operator {
    /// The operator has been opened and not closed since.
    spec fn is_open(&self) -> bool;

    /// A bound on the number of rows the operator can still produce.
    spec fn remaining(&self) -> nat;

    /// The row the next call of `next` hands out, when the operator can
    /// tell it in advance.
    spec fn upcoming(&self) -> Option<Seq<ValueView>>;

    /// What the calls of `next` handed out, in order.
    spec fn history(&self) -> Seq<Option<Record>>;

    /// Opens the operator and its children.
    fn open(&mut self)
        ensures
            final(self).is_open(),
            final(self).history() == old(self).history(),
    ;

    /// The next row, or `None` when there are no more.
    fn next(&mut self) -> (r: Option<Record>)
        requires
            old(self).is_open(),
        ensures
            final(self).is_open(),
            final(self).history() == old(self).history().push(r),
            final(self).remaining() <= old(self).remaining(),
            r is Some ==> final(self).remaining() < old(self).remaining(),
            old(self).upcoming() is Some ==> r is Some && old(self).upcoming() == Some(r->Some_0.values()),
    ;

    /// Closes the operator and its children.
    fn close(&mut self)
        ensures
            !final(self).is_open(),
    ;
}

/// A data page handed out by a buffer pool: rows in slots `0..length`.
pub struct DummyPage {
    pub records: Vec<Record>,
    pub length: usize,
}

/// The rows of a page, by view.
pub open spec fn page_rows(p: &DummyPage) -> Seq<Seq<ValueView>> {
    p.records@.map_values(|r: Record| r.values())
}

/// A table: the ids of its pages, in order.
pub trait Table {
    spec fn pages(&self) -> Seq<PageID>;

    /// The ids of the table's pages.
    fn page_list(&self) -> (r: Vec<PageID>)
        ensures
            r@ == self.pages(),
    ;
}

/// Pages by id.
pub trait BufferPool {
    /// Number of rows page `id` holds.
    spec fn page_len(&self, id: PageID) -> nat;

    /// The rows of page `id`.
    spec fn page_view(&self, id: PageID) -> Seq<Seq<ValueView>>;

    /// Page `id`, pinned.
    fn pin(&mut self, id: PageID) -> (p: DummyPage)
        ensures
            p.length == old(self).page_len(id),
            page_rows(&p) == old(self).page_view(id),
            forall|q: PageID| #[trigger] final(self).page_len(q) == old(self).page_len(q),
            forall|q: PageID| #[trigger] final(self).page_view(q) == old(self).page_view(q),
    ;

    /// Releases a pinned page.
    fn unpin(&mut self, page: DummyPage)
        ensures
            forall|q: PageID| #[trigger] final(self).page_len(q) == old(self).page_len(q),
            forall|q: PageID| #[trigger] final(self).page_view(q) == old(self).page_view(q),
    ;
}

/// A table of the given pages.
pub struct MemoryTable {
    pages: Vec<PageID>,
}

impl MemoryTable {
    /// A table of `pages`.
    pub fn new(pages: Vec<PageID>) -> (t: MemoryTable)
        ensures
            t.pages() == pages@,
    {
        MemoryTable { pages }
    }
}

impl Table for MemoryTable {
    closed spec fn pages(&self) -> Seq<PageID> {
        self.pages@
    }

    fn page_list(&self) -> (r: Vec<PageID>) {
        let mut r: Vec<PageID> = Vec::new();
        let mut i: usize = 0;
        while i < self.pages.len()
            invariant
                i <= self.pages@.len(),
                r@ == self.pages@.subrange(0, i as int),
            decreases self.pages@.len() - i,
        {
            r.push(self.pages[i]);
            i = i + 1;
            proof {
                assert(r@ =~= self.pages@.subrange(0, i as int));
            }
        }
        proof {
            assert(self.pages@.subrange(0, self.pages@.len() as int) == self.pages@);
        }
        r
    }
}

/// Pages held in memory: page `i` has id `PageID(i)`.
pub struct MemoryBufferPool {
    pages: Vec<DummyPage>,
}

impl MemoryBufferPool {
    /// A pool of `pages`.
    pub fn new(pages: Vec<DummyPage>) -> (b: MemoryBufferPool)
        ensures
            forall|i: int|
                0 <= i < pages@.len() && i <= u32::MAX ==> #[trigger] b.page_view(PageID(i as u32)) == page_rows(&pages@[i]),
    {
        let b = MemoryBufferPool { pages };
        b
    }
}

impl BufferPool for MemoryBufferPool {
    closed spec fn page_len(&self, id: PageID) -> nat {
        if (id.0 as int) < self.pages@.len() {
            self.pages@[id.0 as int].length as nat
        } else {
            0
        }
    }

    closed spec fn page_view(&self, id: PageID) -> Seq<Seq<ValueView>> {
        if (id.0 as int) < self.pages@.len() {
            page_rows(&self.pages@[id.0 as int])
        } else {
            seq![]
        }
    }

    fn pin(&mut self, id: PageID) -> (p: DummyPage) {
        if (id.0 as usize) < self.pages.len() {
            let page = &self.pages[id.0 as usize];
            let mut records: Vec<Record> = Vec::new();
            let mut i: usize = 0;
            while i < page.records.len()
                invariant
                    i <= page.records@.len(),
                    records@.len() == i,
                    forall|k: int| 0 <= k < i ==> (#[trigger] records@[k]).values() == page.records@[k].values(),
                decreases page.records@.len() - i,
            {
                records.push(page.records[i].copy());
                i = i + 1;
            }
            let p = DummyPage { records, length: page.length };
            proof {
                assert(page_rows(&p) =~= page_rows(page));
            }
            p
        } else {
            let p = DummyPage { records: Vec::new(), length: 0 };
            proof {
                assert(page_rows(&p) =~= Seq::<Seq<ValueView>>::empty());
            }
            p
        }
    }

    fn unpin(&mut self, page: DummyPage) {
    }
}

/// The rows a scan emits from page `id`: those in slots `0..length` (a slot
/// without a row is skipped).
pub open spec fn page_rows_in<B: BufferPool>(buffer: &B, id: PageID) -> Seq<Seq<ValueView>> {
    let v = buffer.page_view(id);
    let n = buffer.page_len(id);
    if n <= v.len() {
        v.take(n as int)
    } else {
        v
    }
}

/// The rows of the pages `pages[j..]`, page after page.
pub open spec fn rows_from<B: BufferPool>(buffer: &B, pages: Seq<PageID>, j: int) -> Seq<Seq<ValueView>>
    decreases pages.len() - j,
{
    if j < 0 || j >= pages.len() {
        seq![]
    } else {
        page_rows_in(buffer, pages[j]) + rows_from(buffer, pages, j + 1)
    }
}

/// The rows still to come from slot `slot` of page `pages[pi]` on.
pub open spec fn rows_after<B: BufferPool>(buffer: &B, pages: Seq<PageID>, pi: int, slot: int) -> Seq<
    Seq<ValueView>,
> {
    if pi < 0 || pi >= pages.len() {
        seq![]
    } else {
        let rows = page_rows_in(buffer, pages[pi]);
        (if 0 <= slot < rows.len() {
            rows.subrange(slot, rows.len() as int)
        } else {
            seq![]
        }) + rows_from(buffer, pages, pi + 1)
    }
}

proof fn lemma_rows_from_same<B: BufferPool>(a: B, b: B, pages: Seq<PageID>, j: int)
    requires
        forall|q: PageID| #[trigger] b.page_len(q) == a.page_len(q),
        forall|q: PageID| #[trigger] b.page_view(q) == a.page_view(q),
    ensures
        rows_from(&a, pages, j) == rows_from(&b, pages, j),
    decreases pages.len() - j,
{
    if 0 <= j < pages.len() {
        lemma_rows_from_same(a, b, pages, j + 1);
    }
}

/// Buffers with the same pages give the same rows.
proof fn lemma_rows_same<B: BufferPool>(a: B, b: B, pages: Seq<PageID>, j: int)
    requires
        forall|q: PageID| #[trigger] b.page_len(q) == a.page_len(q),
        forall|q: PageID| #[trigger] b.page_view(q) == a.page_view(q),
    ensures
        rows_from(&a, pages, j) == rows_from(&b, pages, j),
        forall|pi: int, slot: int| rows_after(&a, pages, pi, slot) == #[trigger] rows_after(&b, pages, pi, slot),
{
    lemma_rows_from_same(a, b, pages, j);
    assert forall|pi: int, slot: int| rows_after(&a, pages, pi, slot) == #[trigger] rows_after(&b, pages, pi, slot) by {
        lemma_rows_from_same(a, b, pages, pi + 1);
    }
}

/// Scans the rows of a table's pages, page after page, slot after slot.
pub struct TableScan<T: Table, B: BufferPool> {
    table: T,
    buffer: B,
    is_open: bool,
    page_index: usize,
    current_page_id: PageID,
    index_on_page: usize,
    history: Ghost<Seq<Option<Record>>>,
}

impl<T: Table, B: BufferPool> TableScan<T, B> {
    /// A closed scan of `table` through `buffer`.
    pub fn new(table: T, buffer: B) -> (s: Self)
        ensures
            s.table() == table,
            s.buffer() == buffer,
            !s.is_open(),
    {
        TableScan {
            table,
            buffer,
            is_open: false,
            page_index: 0,
            current_page_id: PageID(0),
            index_on_page: 0,
            history: Ghost(Seq::empty()),
        }
    }

    /// The table.
    pub closed spec fn table(&self) -> T {
        self.table
    }

    /// The buffer pool.
    pub closed spec fn buffer(&self) -> B {
        self.buffer
    }

    /// Whether the scan was opened.
    pub closed spec fn opened(&self) -> bool {
        self.is_open
    }

    /// The rows the scan still emits, in order.
    pub closed spec fn pending(&self) -> Seq<Seq<ValueView>> {
        rows_after(&self.buffer, self.table.pages(), self.page_index as int, self.index_on_page as int)
    }

    /// The scan is at a page of the table, or past the last one.
    pub closed spec fn positioned(&self) -> bool {
        self.page_index < self.table.pages().len() ==> self.current_page_id
            == self.table.pages()[self.page_index as int]
    }

    /// The next row: the first of the rows still to come, pages without
    /// rows being passed over; `None` when no row is left.
    pub fn next_row(&mut self) -> (r: Option<Record>)
        requires
            old(self).positioned(),
        ensures
            final(self).table() == old(self).table(),
            final(self).opened() == old(self).opened(),
            final(self).positioned(),
            final(self).history() == old(self).history(),
            forall|q: PageID| #[trigger] final(self).buffer().page_len(q) == old(self).buffer().page_len(q),
            forall|q: PageID| #[trigger] final(self).buffer().page_view(q) == old(self).buffer().page_view(q),
            old(self).pending().len() == 0 ==> r is None && final(self).pending().len() == 0,
            old(self).pending().len() > 0 ==> r is Some && r->Some_0.values() == old(self).pending()[0]
                && final(self).pending() == old(self).pending().drop_first(),
    {
        let list = self.table.page_list();
        let ghost pages = self.table.pages();
        let ghost b0 = self.buffer;
        let ghost p0 = old(self).pending();
        loop
            invariant
                list@ == pages,
                pages == self.table.pages(),
                self.table == old(self).table,
                self.is_open == old(self).is_open,
                self.positioned(),
                self.history == old(self).history,
                forall|q: PageID| #[trigger] self.buffer.page_len(q) == b0.page_len(q),
                forall|q: PageID| #[trigger] self.buffer.page_view(q) == b0.page_view(q),
                b0 == old(self).buffer,
                p0 == old(self).pending(),
                self.pending() == p0,
            decreases pages.len() - self.page_index,
        {
            proof {
                lemma_rows_same(b0, self.buffer, pages, 0);
            }
            if self.page_index >= list.len() {
                return None;
            }
            let ghost bb = self.buffer;
            let page = self.buffer.pin(self.current_page_id);
            let n = if page.length <= page.records.len() {
                page.length
            } else {
                page.records.len()
            };
            proof {
                let rows = page_rows_in(&bb, self.current_page_id);
                assert(page_rows(&page).len() == page.records@.len());
                assert(rows.len() == n);
                lemma_rows_same(bb, self.buffer, pages, 0);
            }
            if self.index_on_page < n {
                let i = self.index_on_page;
                let record = page.records[i].copy();
                let ghost b1 = self.buffer;
                self.buffer.unpin(page);
                self.index_on_page = i + 1;
                proof {
                    lemma_rows_same(b0, self.buffer, pages, 0);
                    lemma_rows_same(bb, self.buffer, pages, 0);
                    let rows = page_rows_in(&bb, pages[self.page_index as int]);
                    assert(rows[i as int] == page_rows(&page)[i as int]);
                    assert(page_rows(&page)[i as int] == page.records@[i as int].values());
                    let pa = rows_after(&bb, pages, self.page_index as int, i as int);
                    assert(pa[0] == rows[i as int]);
                    assert(rows_after(&bb, pages, self.page_index as int, i + 1) =~= pa.drop_first());
                }
                return Some(record);
            }
            self.buffer.unpin(page);
            proof {
                lemma_rows_same(bb, self.buffer, pages, 0);
                assert(rows_after(&bb, pages, self.page_index as int, self.index_on_page as int)
                    =~= rows_after(&bb, pages, self.page_index + 1, 0));
            }
            self.page_index = self.page_index + 1;
            self.index_on_page = 0;
            if self.page_index < list.len() {
                self.current_page_id = list[self.page_index];
            }
            proof {
                lemma_rows_same(b0, self.buffer, pages, 0);
                lemma_rows_same(bb, self.buffer, pages, 0);
            }
        }
    }
}

impl<T: Table, B: BufferPool> Operator for TableScan<T, B> {
    closed spec fn history(&self) -> Seq<Option<Record>> {
        self.history@
    }

    closed spec fn is_open(&self) -> bool {
        self.is_open && self.positioned()
    }

    closed spec fn remaining(&self) -> nat {
        self.pending().len()
    }

    /// The first of the rows still to come.
    closed spec fn upcoming(&self) -> Option<Seq<ValueView>> {
        if self.pending().len() > 0 {
            Some(self.pending()[0])
        } else {
            None
        }
    }

    /// Starts at the first slot of the first page: every row of the table
    /// is still to come.
    fn open(&mut self)
        ensures
            final(self).pending() == rows_from(&old(self).buffer(), old(self).table().pages(), 0),
            final(self).table() == old(self).table(),
            final(self).buffer() == old(self).buffer(),
    {
        self.is_open = true;
        self.page_index = 0;
        let list = self.table.page_list();
        if list.len() > 0 {
            self.current_page_id = list[0];
        }
        self.index_on_page = 0;
        proof {
            let pages = self.table.pages();
            if pages.len() > 0 {
                let rows = page_rows_in(&self.buffer, pages[0]);
                if rows.len() > 0 {
                    assert(rows.subrange(0, rows.len() as int) =~= rows);
                } else {
                    assert(rows =~= Seq::<Seq<ValueView>>::empty());
                }
                assert(self.pending() =~= rows_from(&self.buffer, pages, 0));
            }
        }
    }

    /// The first of the rows still to come; `None` at the end, and on every
    /// later call.
    fn next(&mut self) -> (r: Option<Record>)
        ensures
            match old(self).upcoming() {
                Some(v) => r is Some && r->Some_0.values() == v,
                None => r is None,
            },
            final(self).pending() == if old(self).pending().len() > 0 {
                old(self).pending().drop_first()
            } else {
                old(self).pending()
            },
            final(self).table() == old(self).table(),
    {
        let r = self.next_row();
        self.history = Ghost(self.history@.push(r));
        r
    }

    fn close(&mut self) {
        self.is_open = false;
        self.index_on_page = 0;
        self.page_index = 0;
    }
}

/// What the calls of `next` of an operator handed out between its
/// histories `before` and `after`.
pub open spec fn rows_since(before: Seq<Option<Record>>, after: Seq<Option<Record>>) -> Seq<Option<Record>> {
    after.subrange(before.len() as int, after.len() as int)
}

/// The rows `p` holds (each entry taken as `Some`).
pub open spec fn pulled_rows(p: Seq<Option<Record>>) -> Seq<Record> {
    Seq::new(p.len(), |i: int| p[i]->Some_0)
}

/// `p` is what a child hands out until it is drained: rows, then `None`.
pub open spec fn rows_drained(p: Seq<Option<Record>>) -> bool {
    &&& p.len() >= 1
    &&& p.last() is None
    &&& forall|i: int| 0 <= i < p.len() - 1 ==> #[trigger] p[i] is Some
}

/// The rows of `rows` that have column `k`, each with its value there.
pub open spec fn keyed_rows(rows: Seq<Record>, k: usize) -> Seq<(ValueView, Seq<ValueView>)>
    decreases rows.len(),
{
    if rows.len() == 0 {
        seq![]
    } else {
        keyed_rows(rows.drop_last(), k) + if (k as int) < rows.last().record@.len() {
            seq![(rows.last().record@[k as int]@, rows.last().values())]
        } else {
            seq![]
        }
    }
}

/// Outcome of comparing two rows.
#[derive(Clone, Copy, Debug, PartialEq, Eq, Structural)]
pub enum Order {
    Less,
    Equal,
    Greater,
}

/// An order of rows, supplied by the user of [`Sort`].
pub trait RecordOrder {
    /// How `a` compares to `b`.
    spec fn ordering(&self, a: Record, b: Record) -> Order;

    /// How `a` compares to `b`: the same answer for the same rows.
    fn compare(&self, a: &Record, b: &Record) -> (r: Order)
        ensures
            r == self.ordering(*a, *b),
    ;
}

/// `a` directly before `b` is in descending order of `order`: unless `b`
/// also compares `Less` to `a`, `a` does not compare `Less` to `b`.
pub open spec fn descends<F: RecordOrder>(order: &F, a: Record, b: Record) -> bool {
    order.ordering(a, b) == Order::Less ==> order.ordering(b, a) == Order::Less
}

/// Every row of `s` descends to the next one.
pub open spec fn settled<F: RecordOrder>(order: &F, s: Seq<Record>) -> bool {
    forall|k: int| 0 <= k && k + 1 < s.len() ==> #[trigger] descends(order, s[k], s[k + 1])
}

/// Sorts `v` stably so that it ends in descending order of `order`: a row
/// moves before its predecessor while the predecessor compares `Less`.
/// For an order in which no two rows compare `Less` both ways, no row of
/// the result compares `Less` to the next.
fn sort_descending<F: RecordOrder>(v: &mut Vec<Record>, order: &F)
    ensures
        final(v)@.to_multiset() == old(v)@.to_multiset(),
        settled(order, final(v)@),
{
    broadcast use vstd::seq_lib::group_to_multiset_ensures, vstd::multiset::group_multiset_axioms;

    let n = v.len();
    if n == 0 {
        return ;
    }
    let mut i: usize = 1;
    while i < n
        invariant
            1 <= i <= n,
            n == v@.len(),
            v@.to_multiset() == old(v)@.to_multiset(),
            settled(order, v@.subrange(0, i as int)),
        decreases n - i,
    {
        let ghost w = v@;
        let ghost x = v@[i as int];
        let mut j: usize = i;
        while j > 0
            invariant
                j <= i < n,
                n == v@.len(),
                v@.to_multiset() == old(v)@.to_multiset(),
                w.len() == n,
                settled(order, w.subrange(0, i as int)),
                v@[j as int] == x,
                forall|k: int| 0 <= k < j ==> #[trigger] v@[k] == w[k],
                forall|k: int| j < k <= i ==> #[trigger] v@[k] == w[k - 1],
                forall|k: int| i < k < n ==> #[trigger] v@[k] == w[k],
                j < i ==> order.ordering(w[j as int], x) == Order::Less,
            ensures
                j <= i < n,
                n == v@.len(),
                v@.to_multiset() == old(v)@.to_multiset(),
                v@[j as int] == x,
                forall|k: int| 0 <= k < j ==> #[trigger] v@[k] == w[k],
                forall|k: int| j < k <= i ==> #[trigger] v@[k] == w[k - 1],
                j < i ==> order.ordering(w[j as int], x) == Order::Less,
                j > 0 ==> order.ordering(w[j - 1], x) != Order::Less,
            decreases j,
        {
            if order.compare(&v[j - 1], &v[j]) != Order::Less {
                break ;
            }
            let ghost before = v@;
            let y = v.remove(j - 1);
            let ghost mid = v@;
            v.insert(j, y);
            proof {
                vstd::seq_lib::to_multiset_remove(before, j - 1);
                assert(mid == before.remove(j - 1));
                vstd::seq_lib::to_multiset_insert(mid, j as int, y);
                vstd::seq_lib::to_multiset_contains(before, y);
                assert(before[j - 1] == y);
                assert(v@.to_multiset() =~= before.to_multiset());
                assert(y == w[j - 1]);
                assert(v@[j - 1] == x);
                assert(v@[j as int] == w[j - 1]);
                assert forall|k: int| 0 <= k < j - 1 implies #[trigger] v@[k] == w[k] by {
                    assert(v@[k] == before[k]);
                }
                assert forall|k: int| j < k <= i implies #[trigger] v@[k] == w[k - 1] by {
                    assert(v@[k] == before[k]);
                }
                assert forall|k: int| i < k < n implies #[trigger] v@[k] == w[k] by {
                    assert(v@[k] == before[k]);
                }
            }
            j = j - 1;
        }
        proof {
            let u = v@.subrange(0, i + 1);
            let p = w.subrange(0, i as int);
            assert forall|k: int| 0 <= k && k + 1 < u.len() implies #[trigger] descends(order, u[k], u[k + 1]) by {
                if k + 1 < j {
                    assert(u[k] == p[k] && u[k + 1] == p[k + 1]);
                    assert(descends(order, p[k], p[k + 1]));
                } else if k + 1 == j {
                    assert(u[k] == w[k] && u[k + 1] == x);
                } else if k == j {
                    assert(u[k] == x && u[k + 1] == w[k]);
                } else {
                    let kk = k - 1;
                    assert(u[k] == p[kk] && u[k + 1] == p[kk + 1]);
                    assert(descends(order, p[kk], p[kk + 1]));
                }
            }
        }
        i = i + 1;
    }
    proof {
        assert(v@.subrange(0, n as int) =~= v@);
    }
}

/// Emits the rows of its child sorted by a user order: the child is
/// drained on open.
pub struct Sort<C: Operator, F: RecordOrder> {
    child: C,
    order: F,
    vec: Vec<Record>,
    is_open: bool,
    history: Ghost<Seq<Option<Record>>>,
}

impl<C: Operator, F: RecordOrder> Sort<C, F> {
    /// A closed sort of `child` by `order`.
    pub fn new(child: C, order: F) -> (s: Self)
        ensures
            s.child() == child,
            s.pending().len() == 0,
            !s.is_open(),
    {
        Sort { child, order, vec: Vec::new(), is_open: false, history: Ghost(Seq::empty()) }
    }

    /// The child operator.
    pub closed spec fn child(&self) -> C {
        self.child
    }

    /// The rows still to emit, the next one last.
    pub closed spec fn pending(&self) -> Seq<Record> {
        self.vec@
    }

    /// The order of the rows.
    pub closed spec fn order(&self) -> F {
        self.order
    }
}

impl<C: Operator, F: RecordOrder> Operator for Sort<C, F> {
    closed spec fn history(&self) -> Seq<Option<Record>> {
        self.history@
    }

    closed spec fn is_open(&self) -> bool {
        self.is_open && self.child.is_open()
    }

    closed spec fn remaining(&self) -> nat {
        self.vec@.len()
    }

    /// The last of the rows still to emit.
    closed spec fn upcoming(&self) -> Option<Seq<ValueView>> {
        if self.vec@.len() > 0 {
            Some(self.vec@.last().values())
        } else {
            None
        }
    }

    /// Opens the child, collects all of its rows and sorts them: the rows
    /// to emit are those kept before and all rows of the child, and no row
    /// compares `Less` to the one emitted before it, unless the two compare
    /// `Less` both ways.
    fn open(&mut self)
        ensures
            final(self).order() == old(self).order(),
            settled(&final(self).order(), final(self).pending()),
            ({
                let p = rows_since(old(self).child().history(), final(self).child().history());
                &&& final(self).child().history().subrange(0, old(self).child().history().len() as int)
                    == old(self).child().history()
                &&& rows_drained(p)
                &&& final(self).pending().to_multiset() == old(self).pending().to_multiset().add(
                    pulled_rows(p.drop_last()).to_multiset(),
                )
            }),
    {
        self.is_open = true;
        self.child.open();
        let ghost v0 = self.vec@;
        let ghost h0 = self.child.history();
        proof {
            assert(self.vec@ =~= v0 + pulled_rows(rows_since(h0, self.child.history())));
            assert(self.child.history().subrange(0, h0.len() as int) =~= h0);
        }
        loop
            invariant_except_break
                forall|i: int|
                    0 <= i < rows_since(h0, self.child.history()).len() ==> #[trigger] rows_since(
                        h0,
                        self.child.history(),
                    )[i] is Some,
                self.vec@ == v0 + pulled_rows(rows_since(h0, self.child.history())),
            invariant
                self.is_open,
                self.child.is_open(),
                self.order == old(self).order,
                self.history == old(self).history,
                v0 == old(self).vec@,
                h0 == old(self).child.history(),
                self.child.history().len() >= h0.len(),
                self.child.history().subrange(0, h0.len() as int) == h0,
            ensures
                rows_drained(rows_since(h0, self.child.history())),
                self.vec@ == v0 + pulled_rows(rows_since(h0, self.child.history()).drop_last()),
            decreases self.child.remaining(),
        {
            let ghost hb = self.child.history();
            let pulled = self.child.next();
            let ghost ha = self.child.history();
            proof {
                assert(ha.subrange(0, h0.len() as int) =~= h0);
                assert(rows_since(h0, ha) =~= rows_since(h0, hb).push(pulled));
            }
            match pulled {
                Some(record) => {
                    self.vec.push(record);
                    proof {
                        assert(pulled_rows(rows_since(h0, ha)) =~= pulled_rows(rows_since(h0, hb)).push(record));
                        assert(self.vec@ =~= v0 + pulled_rows(rows_since(h0, ha)));
                        assert forall|i: int| 0 <= i < rows_since(h0, ha).len() implies #[trigger] rows_since(h0, ha)[i] is Some by {
                            if i < rows_since(h0, hb).len() {
                                assert(rows_since(h0, ha)[i] == rows_since(h0, hb)[i]);
                            }
                        }
                    }
                },
                None => {
                    proof {
                        let p = rows_since(h0, ha);
                        assert(p.drop_last() =~= rows_since(h0, hb));
                        assert forall|i: int| 0 <= i < p.len() - 1 implies #[trigger] p[i] is Some by {
                            assert(p[i] == rows_since(h0, hb)[i]);
                        }
                        assert(rows_drained(p));
                    }
                    break ;
                },
            }
        }
        let ghost before_sort = self.vec@;
        sort_descending(&mut self.vec, &self.order);
        proof {
            let p = rows_since(h0, self.child.history());
            vstd::seq_lib::lemma_multiset_commutative(v0, pulled_rows(p.drop_last()));
        }
    }

    /// The next row in order, or `None` when all were emitted.
    fn next(&mut self) -> (r: Option<Record>)
        ensures
            match old(self).upcoming() {
                Some(v) => r is Some && r->Some_0.values() == v,
                None => r is None,
            },
            final(self).order() == old(self).order(),
            old(self).pending().len() > 0 ==> r == Some(old(self).pending().last()) && final(self).pending()
                == old(self).pending().drop_last(),
    {
        let r = self.vec.pop();
        self.history = Ghost(self.history@.push(r));
        r
    }

    fn close(&mut self) {
        self.child.close();
        self.is_open = false;
        self.vec = Vec::new();
    }
}

/// Index of the last build row whose key equals `v`, or -1.
pub open spec fn last_key(build: Seq<(ValueView, Seq<ValueView>)>, v: ValueView, k: int) -> int
    decreases k,
{
    if k <= 0 {
        -1
    } else if build[k - 1].0 == v {
        k - 1
    } else {
        last_key(build, v, k - 1)
    }
}

/// The build side, by view: each key with its row.
pub open spec fn build_view(build: Seq<(Value, Record)>) -> Seq<(ValueView, Seq<ValueView>)> {
    build.map_values(|e: (Value, Record)| (e.0@, e.1.values()))
}

/// The row that joins with `right`: the last build row whose key equals the
/// right row's value `rk`, concatenated with the right row.
pub open spec fn probe_result(build: Seq<(ValueView, Seq<ValueView>)>, right: Seq<ValueView>, rk: int) -> Option<
    Seq<ValueView>,
> {
    if rk < 0 || rk >= right.len() {
        None
    } else {
        let m = last_key(build, right[rk], build.len() as int);
        if m < 0 {
            None
        } else {
            Some(build[m].1 + right)
        }
    }
}

proof fn lemma_last_key(build: Seq<(ValueView, Seq<ValueView>)>, v: ValueView, k: int)
    requires
        k <= build.len(),
    ensures
        -1 <= last_key(build, v, k) < k || k <= 0,
        last_key(build, v, k) >= 0 ==> build[last_key(build, v, k)].0 == v,
        forall|l: int| last_key(build, v, k) < l < k ==> (#[trigger] build[l]).0 != v,
    decreases k,
{
    if k > 0 {
        lemma_last_key(build, v, k - 1);
    }
}

/// A right row joins exactly when some build row has its key, and then with
/// the last such build row: the result is that row followed by the right
/// row.
pub proof fn lemma_probe_result(build: Seq<(ValueView, Seq<ValueView>)>, right: Seq<ValueView>, rk: int)
    requires
        0 <= rk < right.len(),
    ensures
        probe_result(build, right, rk) is Some <==> exists|m: int| 0 <= m < build.len() && (#[trigger] build[m]).0 == right[rk],
        forall|m: int|
            0 <= m < build.len() && (#[trigger] build[m]).0 == right[rk] && (forall|l: int|
                m < l < build.len() ==> (#[trigger] build[l]).0 != right[rk]) ==> probe_result(build, right, rk)
                == Some(build[m].1 + right),
{
    lemma_last_key(build, right[rk], build.len() as int);
    let k = last_key(build, right[rk], build.len() as int);
    assert forall|m: int|
        0 <= m < build.len() && (#[trigger] build[m]).0 == right[rk] && (forall|l: int|
            m < l < build.len() ==> (#[trigger] build[l]).0 != right[rk]) implies probe_result(build, right, rk)
        == Some(build[m].1 + right) by {
        if k < m {
            assert(build[m].0 != right[rk]);
        }
        if k > m {
            assert(build[k].0 != right[rk]);
        }
    }
}

/// Joins `right` with the build rows: see [`probe_result`].
pub fn probe(build: &Vec<(Value, Record)>, right: &Record, rk: usize) -> (r: Option<Record>)
    ensures
        match probe_result(build_view(build@), right.values(), rk as int) {
            Some(v) => r is Some && r->Some_0.values() == v,
            None => r is None,
        },
{
    let ghost bv = build_view(build@);
    if rk >= right.record.len() {
        return None;
    }
    let key = &right.record[rk];
    let mut k: usize = build.len();
    while k > 0
        invariant
            k <= build@.len(),
            bv == build_view(build@),
            rk < right.record@.len(),
            *key == right.record@[rk as int],
            last_key(bv, key@, build@.len() as int) == last_key(bv, key@, k as int),
        decreases k,
    {
        if build[k - 1].0.equals(key) {
            let mut joined = build[k - 1].1.copy();
            let mut rest = right.copy();
            let ghost lv = joined.values();
            joined.record.append(&mut rest.record);
            proof {
                assert(right.values()[rk as int] == key@);
                assert(joined.values() =~= lv + right.values());
            }
            return Some(joined);
        }
        k = k - 1;
    }
    None
}

/// Equi join: the left child's rows are collected on open, keyed by
/// their join column (a later row replaces an earlier one with the same
/// key); each right row with a partner is emitted as the left row's values
/// followed by its own.
pub struct EquiHashJoin<L: Operator, R: Operator> {
    left_child: L,
    left_join_key: usize,
    right_child: R,
    right_join_key: usize,
    is_open: bool,
    build: Vec<(Value, Record)>,
    history: Ghost<Seq<Option<Record>>>,
}

impl<L: Operator, R: Operator> EquiHashJoin<L, R> {
    /// A closed join of `left_child` and `right_child` on the given
    /// columns.
    pub fn new(left_child: L, right_child: R, left_join_key: usize, right_join_key: usize) -> (j: Self)
        ensures
            j.left() == left_child,
            j.right() == right_child,
            j.keys() == (left_join_key, right_join_key),
            !j.is_open(),
    {
        EquiHashJoin {
            left_child,
            left_join_key,
            right_child,
            right_join_key,
            is_open: false,
            build: Vec::new(),
            history: Ghost(Seq::empty()),
        }
    }

    /// The left child.
    pub closed spec fn left(&self) -> L {
        self.left_child
    }

    /// The right child.
    pub closed spec fn right(&self) -> R {
        self.right_child
    }

    /// The join columns.
    pub closed spec fn keys(&self) -> (usize, usize) {
        (self.left_join_key, self.right_join_key)
    }

    /// The collected left rows with their keys.
    pub closed spec fn built(&self) -> Seq<(ValueView, Seq<ValueView>)> {
        build_view(self.build@)
    }
}

impl<L: Operator, R: Operator> Operator for EquiHashJoin<L, R> {
    closed spec fn history(&self) -> Seq<Option<Record>> {
        self.history@
    }

    closed spec fn is_open(&self) -> bool {
        self.is_open && self.left_child.is_open() && self.right_child.is_open()
    }

    closed spec fn remaining(&self) -> nat {
        self.right_child.remaining()
    }

    /// The right child's upcoming row joined with its partner, when it has
    /// one.
    closed spec fn upcoming(&self) -> Option<Seq<ValueView>> {
        match self.right_child.upcoming() {
            Some(row) => probe_result(build_view(self.build@), row, self.right_join_key as int),
            None => None,
        }
    }

    /// Opens both children and collects the left rows by key; a left row
    /// without the key column is skipped.
    fn open(&mut self)
        ensures
            final(self).keys() == old(self).keys(),
            ({
                let p = rows_since(old(self).left().history(), final(self).left().history());
                &&& final(self).left().history().subrange(0, old(self).left().history().len() as int)
                    == old(self).left().history()
                &&& rows_drained(p)
                &&& final(self).built() == old(self).built() + keyed_rows(
                    pulled_rows(p.drop_last()),
                    old(self).keys().0,
                )
            }),
    {
        self.is_open = true;
        self.left_child.open();
        self.right_child.open();
        let ghost b0 = build_view(self.build@);
        let ghost h0 = self.left_child.history();
        let ghost lk = self.left_join_key;
        proof {
            assert(self.left_child.history().subrange(0, h0.len() as int) =~= h0);
            assert(pulled_rows(rows_since(h0, self.left_child.history())) =~= Seq::<Record>::empty());
            assert(build_view(self.build@) =~= b0 + keyed_rows(Seq::<Record>::empty(), lk));
        }
        loop
            invariant_except_break
                forall|i: int|
                    0 <= i < rows_since(h0, self.left_child.history()).len() ==> #[trigger] rows_since(
                        h0,
                        self.left_child.history(),
                    )[i] is Some,
                build_view(self.build@) == b0 + keyed_rows(pulled_rows(rows_since(h0, self.left_child.history())), lk),
            invariant
                self.is_open,
                self.left_child.is_open(),
                self.right_child.is_open(),
                self.history == old(self).history,
                self.left_join_key == old(self).left_join_key,
                self.right_join_key == old(self).right_join_key,
                lk == self.left_join_key,
                b0 == build_view(old(self).build@),
                h0 == old(self).left_child.history(),
                self.left_child.history().len() >= h0.len(),
                self.left_child.history().subrange(0, h0.len() as int) == h0,
            ensures
                rows_drained(rows_since(h0, self.left_child.history())),
                build_view(self.build@) == b0 + keyed_rows(
                    pulled_rows(rows_since(h0, self.left_child.history()).drop_last()),
                    lk,
                ),
            decreases self.left_child.remaining(),
        {
            let ghost hb = self.left_child.history();
            let pulled = self.left_child.next();
            let ghost ha = self.left_child.history();
            proof {
                assert(ha.subrange(0, h0.len() as int) =~= h0);
                assert(rows_since(h0, ha) =~= rows_since(h0, hb).push(pulled));
            }
            match pulled {
                Some(record) => {
                    let ghost rows_b = pulled_rows(rows_since(h0, hb));
                    let ghost rows_a = pulled_rows(rows_since(h0, ha));
                    proof {
                        assert(rows_a =~= rows_b.push(record));
                        assert(rows_a.drop_last() =~= rows_b);
                    }
                    if self.left_join_key < record.record.len() {
                        let key = record.record[self.left_join_key].copy();
                        let ghost bb = self.build@;
                        self.build.push((key, record));
                        proof {
                            assert(build_view(self.build@) =~= build_view(bb).push((key@, record.values())));
                        }
                    }
                    proof {
                        assert(build_view(self.build@) =~= b0 + keyed_rows(rows_a, lk));
                        assert forall|i: int| 0 <= i < rows_since(h0, ha).len() implies #[trigger] rows_since(h0, ha)[i] is Some by {
                            if i < rows_since(h0, hb).len() {
                                assert(rows_since(h0, ha)[i] == rows_since(h0, hb)[i]);
                            }
                        }
                    }
                },
                None => {
                    proof {
                        let p = rows_since(h0, ha);
                        assert(p.drop_last() =~= rows_since(h0, hb));
                        assert forall|i: int| 0 <= i < p.len() - 1 implies #[trigger] p[i] is Some by {
                            assert(p[i] == rows_since(h0, hb)[i]);
                        }
                        assert(rows_drained(p));
                    }
                    break ;
                },
            }
        }
    }

    /// The next right row that has a partner, joined with it; right rows
    /// without a partner are passed over; `None` when the right child is
    /// exhausted.
    fn next(&mut self) -> (r: Option<Record>)
        ensures
            final(self).keys() == old(self).keys(),
            final(self).built() == old(self).built(),
            ({
                let p = rows_since(old(self).right().history(), final(self).right().history());
                let rk = old(self).keys().1 as int;
                &&& final(self).right().history().subrange(0, old(self).right().history().len() as int)
                    == old(self).right().history()
                &&& p.len() >= 1
                &&& forall|i: int|
                    0 <= i < p.len() - 1 ==> #[trigger] p[i] is Some && probe_result(
                        old(self).built(),
                        p[i]->Some_0.values(),
                        rk,
                    ) is None
                &&& match p.last() {
                    None => r is None,
                    Some(row) => probe_result(old(self).built(), row.values(), rk) is Some && r is Some
                        && r->Some_0.values() == probe_result(old(self).built(), row.values(), rk)->Some_0,
                }
            }),
    {
        let ghost mut first = true;
        let ghost h0 = self.right_child.history();
        let ghost bv = build_view(self.build@);
        let ghost rk = self.right_join_key as int;
        proof {
            assert(self.right_child.history().subrange(0, h0.len() as int) =~= h0);
        }
        loop
            invariant
                self.is_open,
                self.left_child.is_open(),
                self.right_child.is_open(),
                self.right_child.remaining() <= old(self).right_child.remaining(),
                self.build@ == old(self).build@,
                self.right_join_key == old(self).right_join_key,
                self.left_join_key == old(self).left_join_key,
                self.history == old(self).history,
                first ==> self.right_child == old(self).right_child,
                !first ==> old(self).upcoming() is None,
                h0 == old(self).right_child.history(),
                bv == build_view(old(self).build@),
                rk == old(self).right_join_key as int,
                self.right_child.history().len() >= h0.len(),
                self.right_child.history().subrange(0, h0.len() as int) == h0,
                first == (self.right_child.history().len() == h0.len()),
                forall|i: int|
                    0 <= i < rows_since(h0, self.right_child.history()).len() ==> #[trigger] rows_since(
                        h0,
                        self.right_child.history(),
                    )[i] is Some && probe_result(bv, rows_since(h0, self.right_child.history())[i]->Some_0.values(), rk)
                        is None,
            decreases self.right_child.remaining(),
        {
            let ghost hb = self.right_child.history();
            let pulled = self.right_child.next();
            let ghost ha = self.right_child.history();
            proof {
                assert(ha.subrange(0, h0.len() as int) =~= h0);
                assert(rows_since(h0, ha) =~= rows_since(h0, hb).push(pulled));
            }
            match pulled {
                Some(record) => {
                    match probe(&self.build, &record, self.right_join_key) {
                        Some(joined) => {
                            let r = Some(joined);
                            self.history = Ghost(self.history@.push(r));
                            proof {
                                let p = rows_since(h0, ha);
                                assert forall|i: int| 0 <= i < p.len() - 1 implies #[trigger] p[i] is Some && probe_result(bv, p[i]->Some_0.values(), rk) is None by {
                                    assert(p[i] == rows_since(h0, hb)[i]);
                                }
                            }
                            return r;
                        },
                        None => {
                            proof {
                                first = false;
                                let p = rows_since(h0, ha);
                                assert forall|i: int| 0 <= i < p.len() implies #[trigger] p[i] is Some && probe_result(bv, p[i]->Some_0.values(), rk) is None by {
                                    if i < rows_since(h0, hb).len() {
                                        assert(p[i] == rows_since(h0, hb)[i]);
                                    }
                                }
                            }
                        },
                    }
                },
                None => {
                    self.history = Ghost(self.history@.push(None));
                    proof {
                        let p = rows_since(h0, ha);
                        assert forall|i: int| 0 <= i < p.len() - 1 implies #[trigger] p[i] is Some && probe_result(bv, p[i]->Some_0.values(), rk) is None by {
                            assert(p[i] == rows_since(h0, hb)[i]);
                        }
                    }
                    return None;
                },
            }
        }
    }

    fn close(&mut self) {
        self.left_child.close();
        self.right_child.close();
        self.is_open = false;
        self.build = Vec::new();
    }
}

} // verus!
