//! Decomposed bitmap index: key values are split into base-`B` digits, with
//! one bitmap per digit position and digit value.

use vstd::prelude::*;

use super::bitmap::{
    and_into, bitmap_len, full_bitmap, or_into, or_masked, row_bit, set_row, zero_bitmap,
};
use super::index_iterator::IndexIterator;
use super::naive_bitmap_index::has_column;
use crate::distributed::{DummyTable, Value};

verus! {

/// `b` to the power `e`.
pub open spec fn power(b: nat, e: nat) -> nat
    decreases e,
{
    if e == 0 {
        1
    } else {
        b * power(b, (e - 1) as nat)
    }
}

/// Digit `i` of `x` in base `b`.
pub open spec fn digit(x: nat, b: nat, i: nat) -> nat {
    (x / power(b, i)) % b
}

/// Digits `j..t` of `x` and `s` agree.
pub open spec fn digits_equal_from(x: nat, s: nat, b: nat, j: nat, t: nat) -> bool {
    forall|i: nat| j <= i < t ==> #[trigger] digit(x, b, i) == digit(s, b, i)
}

/// Read as numbers of digits `j..t`, `x` is above `s`.
pub open spec fn digits_greater_from(x: nat, s: nat, b: nat, j: nat, t: nat) -> bool {
    exists|k: nat|
        j <= k < t && #[trigger] digit(x, b, k) > digit(s, b, k) && digits_equal_from(x, s, b, k + 1, t)
}

/// Read as numbers of the low `t` digits, `s <= x`.
pub open spec fn digits_at_least(x: nat, s: nat, b: nat, t: nat) -> bool {
    digits_greater_from(x, s, b, 0, t) || digits_equal_from(x, s, b, 0, t)
}

/// The key column of `table`, as the numbers of its `UInt` values.
pub open spec fn uint_column(table: Seq<Vec<Value>>, col: int) -> Seq<nat> {
    table.map_values(
        |r: Vec<Value>|
            match r@[col] {
                Value::UInt(x) => x as nat,
                _ => 0,
            },
    )
}

/// Whether column `col` of every row of `table` holds a `UInt`.
pub open spec fn uint_keys(table: Seq<Vec<Value>>, col: int) -> bool {
    forall|r: int| 0 <= r < table.len() ==> (#[trigger] table[r])@[col] is UInt
}

proof fn lemma_power_positive(b: nat, e: nat)
    requires
        b > 0,
    ensures
        power(b, e) > 0,
    decreases e,
{
    if e > 0 {
        lemma_power_positive(b, (e - 1) as nat);
        let p = power(b, (e - 1) as nat);
        assert(b * p > 0) by (nonlinear_arith)
            requires
                b > 0,
                p > 0,
        ;
    }
}

proof fn lemma_power_grows(b: nat, e: nat)
    requires
        b >= 2,
    ensures
        power(b, e) >= e + 1,
    decreases e,
{
    if e > 0 {
        lemma_power_grows(b, (e - 1) as nat);
        let p = power(b, (e - 1) as nat);
        assert(b * p >= 2 * p) by (nonlinear_arith)
            requires
                b >= 2,
                p >= 0,
        ;
    }
}

proof fn lemma_div_step(x: nat, b: nat, i: nat)
    requires
        b > 0,
    ensures
        (x / power(b, i)) / b == x / power(b, i + 1),
{
    lemma_power_positive(b, i);
    let p = power(b, i);
    vstd::arithmetic::div_mod::lemma_div_denominator(x as int, p as int, b as int);
    assert(power(b, i + 1) == b * p);
    assert(p * b == b * p) by (nonlinear_arith);
}

proof fn lemma_quotient_bound(x: nat, c: nat, b: nat)
    requires
        c > 0,
    ensures
        x / c < b ==> x < c * b,
        x / c >= b ==> x >= c * b,
{
    vstd::arithmetic::div_mod::lemma_fundamental_div_mod(x as int, c as int);
    vstd::arithmetic::div_mod::lemma_mod_bound(x as int, c as int);
    let q = x / c;
    let m = x % c;
    assert(x == c * q + m);
    if q < b {
        assert(c * q + m < c * b) by (nonlinear_arith)
            requires
                q < b,
                m < c,
                c > 0,
        ;
    } else {
        assert(c * q >= c * b) by (nonlinear_arith)
            requires
                q >= b,
                c > 0,
        ;
    }
}

/// Number of base-`base` digits of `number` (one for zero).
fn get_num_digits(number: usize, base: usize) -> (t: usize)
    requires
        base > 1,
    ensures
        t >= 1,
        number < power(base as nat, t as nat),
        t == 1 || power(base as nat, (t - 1) as nat) <= number,
{
    let mut n = number;
    let mut t: usize = 1;
    proof {
        assert(power(base as nat, 0) == 1);
        assert(number as nat / 1 == number as nat);
        assert(((t - 1) as nat) == 0);
    }
    while n >= base
        invariant
            base > 1,
            t >= 1,
            n == number as nat / power(base as nat, (t - 1) as nat),
            t == 1 || power(base as nat, (t - 1) as nat) <= number,
        decreases n,
    {
        proof {
            lemma_power_positive(base as nat, (t - 1) as nat);
            lemma_quotient_bound(number as nat, power(base as nat, (t - 1) as nat), base as nat);
            assert(power(base as nat, t as nat) == base * power(base as nat, (t - 1) as nat));
            assert(power(base as nat, (t - 1) as nat) * base == base * power(base as nat, (t - 1) as nat))
                by (nonlinear_arith);
            lemma_power_grows(base as nat, t as nat);
            lemma_div_step(number as nat, base as nat, (t - 1) as nat);
            assert((t - 1 + 1) as nat == t as nat);
        }
        assert(n / base < n) by (nonlinear_arith)
            requires
                n >= base,
                base > 1,
        ;
        n = n / base;
        t = t + 1;
    }
    proof {
        lemma_power_positive(base as nat, (t - 1) as nat);
        lemma_quotient_bound(number as nat, power(base as nat, (t - 1) as nat), base as nat);
        assert(power(base as nat, t as nat) == base * power(base as nat, (t - 1) as nat));
        assert(power(base as nat, (t - 1) as nat) * base == base * power(base as nat, (t - 1) as nat))
            by (nonlinear_arith);
    }
    t
}

/// The low `digits` digits of `number` in base `base`, least significant first.
fn decompose_number(number: usize, base: usize, digits: usize) -> (r: Vec<usize>)
    requires
        base > 1,
    ensures
        r@.len() == digits,
        forall|i: int| 0 <= i < digits ==> r@[i] == digit(number as nat, base as nat, i as nat),
{
    let mut r: Vec<usize> = Vec::new();
    let mut value = number;
    let mut i: usize = 0;
    proof {
        assert(power(base as nat, 0) == 1);
    }
    while i < digits
        invariant
            base > 1,
            i <= digits,
            r@.len() == i,
            value == number as nat / power(base as nat, i as nat),
            forall|k: int| 0 <= k < i ==> r@[k] == digit(number as nat, base as nat, k as nat),
        decreases digits - i,
    {
        r.push(value % base);
        proof {
            lemma_div_step(number as nat, base as nat, i as nat);
        }
        value = value / base;
        i = i + 1;
    }
    r
}

/// Sets row `row` in bitmap `vecs[a][d]`.
fn set_digit_row(vecs: &mut Vec<Vec<Vec<u8>>>, a: usize, d: usize, row: usize)
    requires
        a < old(vecs)@.len(),
        d < old(vecs)@[a as int]@.len(),
        row < 8 * old(vecs)@[a as int]@[d as int]@.len(),
    ensures
        final(vecs)@.len() == old(vecs)@.len(),
        forall|x: int|
            0 <= x < old(vecs)@.len() ==> (#[trigger] final(vecs)@[x])@.len() == old(vecs)@[x]@.len(),
        forall|x: int, e: int|
            0 <= x < old(vecs)@.len() && 0 <= e < old(vecs)@[x]@.len() && !(x == a && e == d) ==> (
            #[trigger] final(vecs)@[x]@[e]) == old(vecs)@[x]@[e],
        final(vecs)@[a as int]@[d as int]@.len() == old(vecs)@[a as int]@[d as int]@.len(),
        forall|r: int|
            row_bit(final(vecs)@[a as int]@[d as int]@, r) == (r == row || row_bit(
                old(vecs)@[a as int]@[d as int]@,
                r,
            )),
{
    let mut per_digit = vecs.remove(a);
    let ghost pd = per_digit@;
    let mut bm = per_digit.remove(d);
    set_row(&mut bm, row);
    per_digit.insert(d, bm);
    proof {
        assert forall|e: int| 0 <= e < pd.len() && e != d implies per_digit@[e] == pd[e] by {
            if e < d {
            } else {
            }
        }
    }
    let ghost before = vecs@;
    vecs.insert(a, per_digit);
    proof {
        assert forall|x: int| 0 <= x < old(vecs)@.len() && x != a implies vecs@[x] == old(vecs)@[x] by {
        }
    }
}

/// A decomposed bitmap index: `vecs[i][d]` holds the rows whose digit `i` is `d`.
pub struct DecomposedBitmapIndex {
    number_of_records: usize,
    total_digits: usize,
    vecs: Vec<Vec<Vec<u8>>>,
    column: Ghost<Seq<nat>>,
}

/// Whether the rows set in `bm` are exactly those whose digit `i` is `d`.
pub open spec fn rows_with_digit(bm: Seq<u8>, column: Seq<nat>, b: nat, i: nat, d: nat) -> bool {
    forall|r: int| row_bit(bm, r) <==> 0 <= r < column.len() && digit(column[r], b, i) == d
}

impl DecomposedBitmapIndex {
    /// The indexed key column, as numbers.
    pub closed spec fn column(&self) -> Seq<nat> {
        self.column@
    }

    /// The base of the decomposition.
    pub closed spec fn base(&self) -> nat {
        self.vecs@[0]@.len()
    }

    /// The number of digits kept per value.
    pub closed spec fn digits(&self) -> nat {
        self.total_digits as nat
    }

    /// The index is consistent with its column.
    pub closed spec fn wf(&self) -> bool {
        &&& self.number_of_records == self.column@.len()
        &&& self.number_of_records + 7 <= usize::MAX
        &&& self.total_digits >= 1
        &&& self.vecs@.len() == self.total_digits
        &&& self.base() > 1
        &&& forall|i: int|
            0 <= i < self.total_digits ==> (#[trigger] self.vecs@[i])@.len() == self.base()
        &&& forall|i: int, d: int|
            0 <= i < self.total_digits && 0 <= d < self.base() ==> (#[trigger] self.vecs@[i]@[d])@.len()
                == bitmap_len(self.column@.len() as int) && rows_with_digit(
                self.vecs@[i]@[d]@,
                self.column@,
                self.base(),
                i as nat,
                d as nat,
            )
    }

    /// Indexes column `key_column_number` of `table`, whose values are `UInt`s
    /// of at most `max_val`, with digits in base `base`.
    pub fn new(table: &DummyTable, key_column_number: usize, base: usize, max_val: usize) -> (idx:
        Self)
        requires
            has_column(table.records@, key_column_number as int),
            uint_keys(table.records@, key_column_number as int),
            table.records@.len() + 7 <= usize::MAX,
            base > 1,
        ensures
            idx.wf(),
            idx.column() == uint_column(table.records@, key_column_number as int),
            idx.base() == base,
            max_val < power(base as nat, idx.digits()),
            idx.digits() == 1 || power(base as nat, (idx.digits() - 1) as nat) <= max_val,
    {
        let length = table.get_number_of_records();
        let digits = get_num_digits(max_val, base);
        let bitmap_len = (length + 7) / 8;
        let ghost column = uint_column(table.records@, key_column_number as int);
        let mut vecs: Vec<Vec<Vec<u8>>> = Vec::new();
        let mut i: usize = 0;
        while i < digits
            invariant
                i <= digits,
                vecs@.len() == i,
                forall|a: int| 0 <= a < i ==> (#[trigger] vecs@[a])@.len() == base,
                forall|a: int, d: int|
                    0 <= a < i && 0 <= d < base ==> (#[trigger] vecs@[a]@[d])@.len() == bitmap_len
                        && forall|r: int| !row_bit(vecs@[a]@[d]@, r),
            decreases digits - i,
        {
            let mut per_digit: Vec<Vec<u8>> = Vec::new();
            let mut d: usize = 0;
            while d < base
                invariant
                    d <= base,
                    per_digit@.len() == d,
                    forall|e: int|
                        0 <= e < d ==> (#[trigger] per_digit@[e])@.len() == bitmap_len && forall|r: int|
                            !row_bit(per_digit@[e]@, r),
                decreases base - d,
            {
                per_digit.push(zero_bitmap(bitmap_len));
                d = d + 1;
            }
            vecs.push(per_digit);
            i = i + 1;
        }
        let mut row: usize = 0;
        while row < length
            invariant
                length == table.records@.len(),
                column == uint_column(table.records@, key_column_number as int),
                has_column(table.records@, key_column_number as int),
                uint_keys(table.records@, key_column_number as int),
                base > 1,
                bitmap_len == (length + 7) / 8,
                row <= length,
                vecs@.len() == digits,
                forall|a: int| 0 <= a < digits ==> (#[trigger] vecs@[a])@.len() == base,
                forall|a: int, d: int|
                    0 <= a < digits && 0 <= d < base ==> (#[trigger] vecs@[a]@[d])@.len() == bitmap_len
                        && forall|r: int|
                        row_bit(vecs@[a]@[d]@, r) <==> 0 <= r < row && digit(column[r], base as nat, a as nat)
                            == d,
            decreases length - row,
        {
            let number = match table.records[row][key_column_number] {
                Value::UInt(x) => x,
                _ => 0,
            };
            assert(number == column[row as int]);
            let parts = decompose_number(number, base, digits);
            let mut a: usize = 0;
            while a < digits
                invariant
                    length == table.records@.len(),
                    base > 1,
                    bitmap_len == (length + 7) / 8,
                    row < length,
                    a <= digits,
                    parts@.len() == digits,
                    forall|k: int| 0 <= k < digits ==> parts@[k] == digit(number as nat, base as nat, k as nat),
                    number == column[row as int],
                    vecs@.len() == digits,
                    forall|x: int| 0 <= x < digits ==> (#[trigger] vecs@[x])@.len() == base,
                    forall|x: int, d: int|
                        0 <= x < digits && 0 <= d < base ==> (#[trigger] vecs@[x]@[d])@.len() == bitmap_len
                            && forall|r: int|
                            row_bit(vecs@[x]@[d]@, r) <==> 0 <= r < row + (if x < a {
                                1int
                            } else {
                                0int
                            }) && digit(column[r], base as nat, x as nat) == d,
                decreases digits - a,
            {
                let dg = parts[a];
                proof {
                    vstd::arithmetic::div_mod::lemma_mod_bound(
                        (number as nat / power(base as nat, a as nat)) as int,
                        base as int,
                    );
                }
                set_digit_row(&mut vecs, a, dg, row);
                a = a + 1;
            }
            row = row + 1;
        }
        proof {
            assert(vecs@[0]@.len() == base);
        }
        DecomposedBitmapIndex {
            number_of_records: length,
            total_digits: digits,
            vecs,
            column: Ghost(column),
        }
    }

    /// The base of the digits this index is built with: 5.
    pub fn determine_optimal_base(_table: &DummyTable, _key_column_number: usize, _max_val: usize) -> (base:
        usize)
        ensures
            base == 5,
    {
        5
    }

    /// The rows whose key, read through its low `digits()` digits, lies between
    /// those of `start_key` and `end_key`; both keys are `UInt`s.
    pub fn range_lookup(&self, start_key: Value, end_key: Value) -> (it: IndexIterator)
        requires
            self.wf(),
            start_key is UInt,
            end_key is UInt,
        ensures
            it.position() == 0,
            it.bits().len() == bitmap_len(self.column().len() as int),
            forall|r: int|
                row_bit(it.bits(), r) <==> 0 <= r < self.column().len() && digits_at_least(
                    self.column()[r],
                    start_key->UInt_0 as nat,
                    self.base(),
                    self.digits(),
                ) && digits_at_least(
                    end_key->UInt_0 as nat,
                    self.column()[r],
                    self.base(),
                    self.digits(),
                ),
            (forall|r: int| 0 <= r < self.column().len() ==> #[trigger] self.column()[r] < power(self.base(), self.digits()))
                && (start_key->UInt_0 as nat) < power(self.base(), self.digits()) && (end_key->UInt_0 as nat) < power(
                self.base(),
                self.digits(),
            ) ==> forall|r: int|
                row_bit(it.bits(), r) <==> 0 <= r < self.column().len() && start_key->UInt_0 as nat
                    <= #[trigger] self.column()[r] <= end_key->UInt_0 as nat,
    {
        let start_number = match start_key {
            Value::UInt(x) => x,
            _ => 0,
        };
        let end_number = match end_key {
            Value::UInt(x) => x,
            _ => 0,
        };
        let start_bitmap = self.bound_bitmap(start_number, true);
        let end_bitmap = self.bound_bitmap(end_number, false);
        let mut result = start_bitmap;
        and_into(&mut result, &end_bitmap);
        let it = IndexIterator::new(result);
        proof {
            let sn = start_key->UInt_0 as nat;
            let en = end_key->UInt_0 as nat;
            let pw = power(self.base(), self.digits());
            if (forall|r: int| 0 <= r < self.column().len() ==> #[trigger] self.column()[r] < pw) && sn < pw && en < pw {
                lemma_range_lookup_numeric(self, sn, en);
            }
        }
        it
    }

    /// The rows at or above (`lower`) or at or below `bound`, digit-wise.
    fn bound_bitmap(&self, bound: usize, lower: bool) -> (bm: Vec<u8>)
        requires
            self.wf(),
        ensures
            bm@.len() == bitmap_len(self.column().len() as int),
            forall|r: int|
                row_bit(bm@, r) <==> 0 <= r < self.column().len() && (if lower {
                    digits_at_least(self.column()[r], bound as nat, self.base(), self.digits())
                } else {
                    digits_at_least(bound as nat, self.column()[r], self.base(), self.digits())
                }),
    {
        let base = self.vecs[0].len();
        let t = self.total_digits;
        let n = self.number_of_records;
        let vec_len = (n + 7) / 8;
        let ghost column = self.column@;
        let ghost b = base as nat;
        let mut acc = zero_bitmap(vec_len);
        let mut mask = full_bitmap(vec_len);
        let parts = decompose_number(bound, base, t);
        let mut index: usize = 0;
        while index < t
            invariant
                self.wf(),
                column == self.column@,
                b == self.base(),
                base == self.base(),
                t == self.total_digits,
                n == column.len(),
                vec_len == bitmap_len(n as int),
                index <= t,
                parts@.len() == t,
                forall|k: int| 0 <= k < t ==> parts@[k] == digit(bound as nat, b, k as nat),
                acc@.len() == vec_len,
                mask@.len() == vec_len,
                forall|r: int|
                    0 <= r < n ==> (row_bit(mask@, r) <==> digits_equal_from(
                        column[r],
                        bound as nat,
                        b,
                        (t - index) as nat,
                        t as nat,
                    )),
                forall|r: int| n <= r < 8 * vec_len ==> (row_bit(mask@, r) <==> index == 0),
                forall|r: int|
                    row_bit(acc@, r) <==> 0 <= r < n && (if lower {
                        digits_greater_from(column[r], bound as nat, b, (t - index) as nat, t as nat)
                    } else {
                        digits_greater_from(bound as nat, column[r], b, (t - index) as nat, t as nat)
                    }),
            decreases t - index,
        {
            let place = t - index - 1;
            let dg = parts[place];
            let ghost j = (t - index) as nat;
            proof {
                vstd::arithmetic::div_mod::lemma_mod_bound(
                    (bound as nat / power(b, place as nat)) as int,
                    base as int,
                );
            }
            let (lo, hi) = if lower {
                (dg + 1, base)
            } else {
                (0, dg)
            };
            let mut d = lo;
            while d < hi
                invariant
                    self.wf(),
                    column == self.column@,
                    b == self.base(),
                    base == self.base(),
                    t == self.total_digits,
                    n == column.len(),
                    vec_len == bitmap_len(n as int),
                    index < t,
                    place == t - index - 1,
                    lo <= d <= hi <= base,
                    acc@.len() == vec_len,
                    mask@.len() == vec_len,
                    forall|r: int|
                        0 <= r < n ==> (row_bit(mask@, r) <==> digits_equal_from(
                            column[r],
                            bound as nat,
                            b,
                            j,
                            t as nat,
                        )),
                    forall|r: int| n <= r < 8 * vec_len ==> (row_bit(mask@, r) <==> index == 0),
                    forall|r: int|
                        row_bit(acc@, r) <==> 0 <= r < n && ((if lower {
                            digits_greater_from(column[r], bound as nat, b, j, t as nat)
                        } else {
                            digits_greater_from(bound as nat, column[r], b, j, t as nat)
                        }) || (row_bit(mask@, r) && lo <= digit(column[r], b, place as nat) < d)),
                decreases hi - d,
            {
                or_masked(&mut acc, &self.vecs[place][d], &mask);
                proof {
                    assert forall|r: int|
                        row_bit(acc@, r) <==> 0 <= r < n && ((if lower {
                            digits_greater_from(column[r], bound as nat, b, j, t as nat)
                        } else {
                            digits_greater_from(bound as nat, column[r], b, j, t as nat)
                        }) || (row_bit(mask@, r) && lo <= digit(column[r], b, place as nat) < d + 1))
                        by {
                        assert(rows_with_digit(self.vecs@[place as int]@[d as int]@, column, b, place as nat, d as nat));
                    }
                }
                d = d + 1;
            }
            let ghost acc_before = acc@;
            let ghost mask_before = mask@;
            and_into(&mut mask, &self.vecs[place][dg]);
            proof {
                assert(rows_with_digit(self.vecs@[place as int]@[dg as int]@, column, b, place as nat, dg as nat));
                assert(((t - (index + 1)) as nat) == place as nat);
                assert forall|r: int|
                    0 <= r < n implies (row_bit(mask@, r) <==> digits_equal_from(
                        column[r],
                        bound as nat,
                        b,
                        place as nat,
                        t as nat,
                    )) by {
                    lemma_equal_step(column[r], bound as nat, b, place as nat, t as nat);
                }
                assert forall|r: int| row_bit(acc@, r) <==> 0 <= r < n && (if lower {
                        digits_greater_from(column[r], bound as nat, b, place as nat, t as nat)
                    } else {
                        digits_greater_from(bound as nat, column[r], b, place as nat, t as nat)
                    }) by {
                    if 0 <= r < n {
                        vstd::arithmetic::div_mod::lemma_mod_bound(
                            (column[r] / power(b, place as nat)) as int,
                            base as int,
                        );
                        if lower {
                            lemma_greater_step(column[r], bound as nat, b, place as nat, t as nat);
                        } else {
                            lemma_greater_step(bound as nat, column[r], b, place as nat, t as nat);
                            lemma_equal_symmetric(column[r], bound as nat, b, j, t as nat);
                        }
                    }
                }
            }
            index = index + 1;
        }
        let ghost acc_before = acc@;
        or_into(&mut acc, &mask);
        proof {
            assert forall|r: int|
                row_bit(acc@, r) <==> 0 <= r < n && (if lower {
                    digits_at_least(column[r], bound as nat, b, t as nat)
                } else {
                    digits_at_least(bound as nat, column[r], b, t as nat)
                }) by {
                if 0 <= r < n {
                    lemma_equal_symmetric(column[r], bound as nat, b, 0, t as nat);
                }
            }
        }
        acc
    }
}

proof fn lemma_digit_shift(x: nat, b: nat, i: nat)
    requires
        b > 1,
    ensures
        digit(x, b, i + 1) == digit(x / b, b, i),
{
    lemma_power_positive(b, i);
    let p = power(b, i);
    vstd::arithmetic::div_mod::lemma_div_denominator(x as int, b as int, p as int);
    assert(power(b, i + 1) == b * p);
}

proof fn lemma_shift_from(x: nat, s: nat, b: nat, j: nat, t: nat)
    requires
        b > 1,
        t >= 1,
    ensures
        digits_equal_from(x, s, b, j + 1, t) == digits_equal_from(x / b, s / b, b, j, (t - 1) as nat),
        digits_greater_from(x, s, b, j + 1, t) == digits_greater_from(
            x / b,
            s / b,
            b,
            j,
            (t - 1) as nat,
        ),
    decreases t - j,
{
    assert forall|i: nat| #![trigger digit(x / b, b, i)] true implies digit(x, b, i + 1) == digit(x / b, b, i)
        && digit(s, b, i + 1) == digit(s / b, b, i) by {
        lemma_digit_shift(x, b, i);
        lemma_digit_shift(s, b, i);
    }
    if digits_equal_from(x, s, b, j + 1, t) {
        assert forall|i: nat| j <= i < (t - 1) as nat implies #[trigger] digit(x / b, b, i) == digit(
            s / b,
            b,
            i,
        ) by {
            assert(digit(x, b, i + 1) == digit(s, b, i + 1));
        }
    }
    if digits_equal_from(x / b, s / b, b, j, (t - 1) as nat) {
        assert forall|i: nat| j + 1 <= i < t implies #[trigger] digit(x, b, i) == digit(s, b, i) by {
            let i0 = (i - 1) as nat;
            assert(digit(x / b, b, i0) == digit(s / b, b, i0));
            assert(i0 + 1 == i);
        }
    }
    if digits_greater_from(x, s, b, j + 1, t) {
        let k = choose|k: nat|
            j + 1 <= k < t && #[trigger] digit(x, b, k) > digit(s, b, k) && digits_equal_from(x, s, b, k + 1, t);
        let k0 = (k - 1) as nat;
        assert(k0 + 1 == k);
        assert(digit(x / b, b, k0) == digit(x, b, k));
        assert(digit(s / b, b, k0) == digit(s, b, k));
        lemma_shift_from_equal(x, s, b, k, t);
        assert(digits_greater_from(x / b, s / b, b, j, (t - 1) as nat));
    }
    if digits_greater_from(x / b, s / b, b, j, (t - 1) as nat) {
        let k = choose|k: nat|
            j <= k < (t - 1) as nat && #[trigger] digit(x / b, b, k) > digit(s / b, b, k)
                && digits_equal_from(x / b, s / b, b, k + 1, (t - 1) as nat);
        assert(digit(x, b, k + 1) == digit(x / b, b, k));
        assert(digit(s, b, k + 1) == digit(s / b, b, k));
        lemma_shift_from_equal(x, s, b, k + 1, t);
        assert(digits_greater_from(x, s, b, j + 1, t));
    }
}

proof fn lemma_shift_from_equal(x: nat, s: nat, b: nat, j: nat, t: nat)
    requires
        b > 1,
        t >= 1,
    ensures
        digits_equal_from(x, s, b, j + 1, t) == digits_equal_from(x / b, s / b, b, j, (t - 1) as nat),
{
    assert forall|i: nat| #![trigger digit(x / b, b, i)] true implies digit(x, b, i + 1) == digit(x / b, b, i)
        && digit(s, b, i + 1) == digit(s / b, b, i) by {
        lemma_digit_shift(x, b, i);
        lemma_digit_shift(s, b, i);
    }
    if digits_equal_from(x, s, b, j + 1, t) {
        assert forall|i: nat| j <= i < (t - 1) as nat implies #[trigger] digit(x / b, b, i) == digit(
            s / b,
            b,
            i,
        ) by {
            assert(digit(x, b, i + 1) == digit(s, b, i + 1));
        }
    }
    if digits_equal_from(x / b, s / b, b, j, (t - 1) as nat) {
        assert forall|i: nat| j + 1 <= i < t implies #[trigger] digit(x, b, i) == digit(s, b, i) by {
            let i0 = (i - 1) as nat;
            assert(digit(x / b, b, i0) == digit(s / b, b, i0));
            assert(i0 + 1 == i);
        }
    }
}

/// For numbers below `b^t`, comparing digits from the most significant one
/// down is comparing the numbers.
pub proof fn lemma_digits_order(x: nat, s: nat, b: nat, t: nat)
    requires
        b > 1,
        x < power(b, t),
        s < power(b, t),
    ensures
        digits_equal_from(x, s, b, 0, t) == (x == s),
        digits_greater_from(x, s, b, 0, t) == (x > s),
        digits_at_least(x, s, b, t) == (s <= x),
    decreases t,
{
    if t == 0 {
        assert(x == 0 && s == 0);
    } else {
        let tm = (t - 1) as nat;
        lemma_power_positive(b, tm);
        let p = power(b, tm);
        assert(power(b, t) == b * p);
        let xq = x / b;
        let sq = s / b;
        vstd::arithmetic::div_mod::lemma_fundamental_div_mod(x as int, b as int);
        vstd::arithmetic::div_mod::lemma_fundamental_div_mod(s as int, b as int);
        vstd::arithmetic::div_mod::lemma_mod_bound(x as int, b as int);
        vstd::arithmetic::div_mod::lemma_mod_bound(s as int, b as int);
        assert(xq < p) by {
            lemma_quotient_bound(x, b, p);
            assert(b * p == p * b) by (nonlinear_arith);
        }
        assert(sq < p) by {
            lemma_quotient_bound(s, b, p);
            assert(b * p == p * b) by (nonlinear_arith);
        }
        lemma_digits_order(xq, sq, b, tm);
        lemma_shift_from(x, s, b, 0, t);
        lemma_equal_step(x, s, b, 0, t);
        lemma_greater_step(x, s, b, 0, t);
        assert(power(b, 0) == 1);
        assert(digit(x, b, 0) == x % b);
        assert(digit(s, b, 0) == s % b);
        let x0 = x % b;
        let s0 = s % b;
        assert(x == b * xq + x0);
        assert(s == b * sq + s0);
        assert((x == s) == (xq == sq && x0 == s0)) by (nonlinear_arith)
            requires
                x == b * xq + x0,
                s == b * sq + s0,
                x0 < b,
                s0 < b,
                b > 1,
        ;
        assert((x > s) == (xq > sq || (xq == sq && x0 > s0))) by (nonlinear_arith)
            requires
                x == b * xq + x0,
                s == b * sq + s0,
                x0 < b,
                s0 < b,
                b > 1,
        ;
    }
}

/// The decomposed index answers numeric ranges when every key and both bounds
/// are below `base^digits` (which `new` guarantees for keys up to `max_val`).
pub proof fn lemma_range_lookup_numeric(idx: &DecomposedBitmapIndex, start: nat, end: nat)
    requires
        idx.wf(),
        forall|r: int| 0 <= r < idx.column().len() ==> #[trigger] idx.column()[r] < power(idx.base(), idx.digits()),
        start < power(idx.base(), idx.digits()),
        end < power(idx.base(), idx.digits()),
    ensures
        forall|r: int|
            0 <= r < idx.column().len() ==> (digits_at_least(
                #[trigger] idx.column()[r],
                start,
                idx.base(),
                idx.digits(),
            ) && digits_at_least(end, idx.column()[r], idx.base(), idx.digits())) == (start
                <= idx.column()[r] <= end),
{
    assert forall|r: int| 0 <= r < idx.column().len() implies (digits_at_least(
        #[trigger] idx.column()[r],
        start,
        idx.base(),
        idx.digits(),
    ) && digits_at_least(end, idx.column()[r], idx.base(), idx.digits())) == (start <= idx.column()[r]
        <= end) by {
        lemma_digits_order(idx.column()[r], start, idx.base(), idx.digits());
        lemma_digits_order(end, idx.column()[r], idx.base(), idx.digits());
    }
}

proof fn lemma_equal_step(x: nat, s: nat, b: nat, j: nat, t: nat)
    requires
        j < t,
    ensures
        digits_equal_from(x, s, b, j, t) <==> digits_equal_from(x, s, b, j + 1, t) && digit(x, b, j)
            == digit(s, b, j),
{
}

proof fn lemma_equal_symmetric(x: nat, s: nat, b: nat, j: nat, t: nat)
    ensures
        digits_equal_from(x, s, b, j, t) <==> digits_equal_from(s, x, b, j, t),
{
}

proof fn lemma_greater_step(x: nat, s: nat, b: nat, j: nat, t: nat)
    requires
        j < t,
    ensures
        digits_greater_from(x, s, b, j, t) <==> digits_greater_from(x, s, b, j + 1, t) || (
        digits_equal_from(x, s, b, j + 1, t) && digit(x, b, j) > digit(s, b, j)),
{
    if digits_greater_from(x, s, b, j, t) {
        let k = choose|k: nat|
            j <= k < t && #[trigger] digit(x, b, k) > digit(s, b, k) && digits_equal_from(
                x,
                s,
                b,
                k + 1,
                t,
            );
        if k > j {
            assert(digits_greater_from(x, s, b, j + 1, t));
        }
    }
    if digits_greater_from(x, s, b, j + 1, t) {
        let k = choose|k: nat|
            j + 1 <= k < t && #[trigger] digit(x, b, k) > digit(s, b, k) && digits_equal_from(
                x,
                s,
                b,
                k + 1,
                t,
            );
        assert(digits_greater_from(x, s, b, j, t));
    }
    if digits_equal_from(x, s, b, j + 1, t) && digit(x, b, j) > digit(s, b, j) {
        assert(digits_greater_from(x, s, b, j, t));
    }
}

} // verus!
