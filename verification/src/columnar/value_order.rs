//! Order of values: numbers by value, strings by their UTF-8 bytes. Only
//! values of one type are compared.

use vstd::prelude::*;
use vstd::utf8::encode_utf8;

use super::{Value, ValueView};

verus! {

/// `a` comes before `b` or equals it, byte by byte.
pub open spec fn bytes_le(a: Seq<u8>, b: Seq<u8>) -> bool
    decreases a.len(),
{
    if a.len() == 0 {
        true
    } else if b.len() == 0 {
        false
    } else if a[0] != b[0] {
        a[0] < b[0]
    } else {
        bytes_le(a.drop_first(), b.drop_first())
    }
}

/// `a` and `b` have the same type.
pub open spec fn same_type(a: ValueView, b: ValueView) -> bool {
    match (a, b) {
        (ValueView::Int(_), ValueView::Int(_)) => true,
        (ValueView::UInt(_), ValueView::UInt(_)) => true,
        (ValueView::RowID(_), ValueView::RowID(_)) => true,
        (ValueView::Varchar(_), ValueView::Varchar(_)) => true,
        _ => false,
    }
}

/// `a <= b`, for values of one type.
pub open spec fn value_le(a: ValueView, b: ValueView) -> bool {
    match (a, b) {
        (ValueView::Int(x), ValueView::Int(y)) => x <= y,
        (ValueView::UInt(x), ValueView::UInt(y)) => x <= y,
        (ValueView::RowID(x), ValueView::RowID(y)) => x <= y,
        (ValueView::Varchar(s), ValueView::Varchar(t)) => bytes_le(encode_utf8(s), encode_utf8(t)),
        _ => false,
    }
}

/// `a <= b` over bytes.
fn bytes_less_eq(a: &[u8], b: &[u8]) -> (r: bool)
    ensures
        r == bytes_le(a@, b@),
{
    let mut i: usize = 0;
    proof {
        assert(a@.subrange(0, a@.len() as int) == a@);
        assert(b@.subrange(0, b@.len() as int) == b@);
    }
    while i < a.len() && i < b.len()
        invariant
            i <= a@.len(),
            i <= b@.len(),
            a@.subrange(0, i as int) == b@.subrange(0, i as int),
            bytes_le(a@, b@) == bytes_le(a@.subrange(i as int, a@.len() as int), b@.subrange(
                i as int,
                b@.len() as int,
            )),
        decreases a@.len() - i,
    {
        if a[i] != b[i] {
            proof {
                let sa = a@.subrange(i as int, a@.len() as int);
                let sb = b@.subrange(i as int, b@.len() as int);
                assert(sa[0] == a@[i as int]);
                assert(sb[0] == b@[i as int]);
            }
            return a[i] < b[i];
        }
        proof {
            let sa = a@.subrange(i as int, a@.len() as int);
            let sb = b@.subrange(i as int, b@.len() as int);
            assert(sa.drop_first() == a@.subrange(i + 1, a@.len() as int));
            assert(sb.drop_first() == b@.subrange(i + 1, b@.len() as int));
            assert(a@.subrange(0, i + 1) =~= a@.subrange(0, i as int).push(a@[i as int]));
            assert(b@.subrange(0, i + 1) =~= b@.subrange(0, i as int).push(b@[i as int]));
        }
        i = i + 1;
    }
    proof {
        let sa = a@.subrange(i as int, a@.len() as int);
        let sb = b@.subrange(i as int, b@.len() as int);
        if i == a@.len() {
            assert(sa.len() == 0);
        } else {
            assert(sb.len() == 0);
        }
    }
    i == a.len()
}

impl Value {
    /// `self <= other`; both must have the same type.
    pub fn less_eq(&self, other: &Value) -> (r: bool)
        requires
            same_type(self@, other@),
        ensures
            r == value_le(self@, other@),
    {
        match (self, other) {
            (Value::Int(x), Value::Int(y)) => *x <= *y,
            (Value::UInt(x), Value::UInt(y)) => *x <= *y,
            (Value::RowID(x), Value::RowID(y)) => x.0 <= y.0,
            (Value::Varchar(s), Value::Varchar(t)) => bytes_less_eq(s.as_str().as_bytes(), t.as_str().as_bytes()),
            _ => false,
        }
    }
}

proof fn lemma_bytes_le_total(a: Seq<u8>, b: Seq<u8>)
    ensures
        bytes_le(a, b) || bytes_le(b, a),
        bytes_le(a, a),
        bytes_le(a, b) && bytes_le(b, a) ==> a == b,
    decreases a.len(),
{
    if a.len() > 0 && b.len() > 0 && a[0] == b[0] {
        lemma_bytes_le_total(a.drop_first(), b.drop_first());
        if bytes_le(a, b) && bytes_le(b, a) {
            assert(a == seq![a[0]] + a.drop_first());
            assert(b == seq![b[0]] + b.drop_first());
        }
    } else if a.len() > 0 && b.len() == 0 {
    } else if a.len() > 0 {
        lemma_bytes_le_total(a.drop_first(), a.drop_first());
    } else if b.len() == 0 {
        assert(a =~= b);
    }
    if a.len() > 0 {
        lemma_bytes_le_total(a.drop_first(), a.drop_first());
    }
}

proof fn lemma_bytes_le_trans(a: Seq<u8>, b: Seq<u8>, c: Seq<u8>)
    requires
        bytes_le(a, b),
        bytes_le(b, c),
    ensures
        bytes_le(a, c),
    decreases a.len(),
{
    if a.len() > 0 && b.len() > 0 && c.len() > 0 && a[0] == b[0] && b[0] == c[0] {
        lemma_bytes_le_trans(a.drop_first(), b.drop_first(), c.drop_first());
    }
}

/// `bytes_le` is the lexicographic order: `a` is a prefix of `b`, or the two
/// first differ at a place where `a` holds the smaller byte.
pub proof fn lemma_bytes_le_lexicographic(a: Seq<u8>, b: Seq<u8>)
    ensures
        bytes_le(a, b) <==> (a.len() <= b.len() && a == b.take(a.len() as int)) || exists|k: int|
            0 <= k < a.len() && k < b.len() && a.take(k) == b.take(k) && #[trigger] a[k] < b[k],
    decreases a.len(),
{
    if a.len() == 0 {
        assert(a =~= b.take(0));
    } else if b.len() == 0 {
    } else {
        let a1 = a.drop_first();
        let b1 = b.drop_first();
        lemma_bytes_le_lexicographic(a1, b1);
        if a[0] != b[0] {
            if a[0] < b[0] {
                assert(a.take(0) =~= b.take(0));
            } else {
                if a.len() <= b.len() && a == b.take(a.len() as int) {
                    assert(a[0] == b.take(a.len() as int)[0]);
                }
                assert forall|k: int| 0 <= k < a.len() && k < b.len() && a.take(k) == b.take(k) implies !(
                #[trigger] a[k] < b[k]) by {
                    if k > 0 {
                        assert(a.take(k)[0] == b.take(k)[0]);
                    }
                }
            }
        } else {
            if a.len() <= b.len() && a == b.take(a.len() as int) {
                assert(a1 =~= b1.take(a1.len() as int));
            }
            if a1.len() <= b1.len() && a1 == b1.take(a1.len() as int) {
                assert forall|i: int| 0 <= i < a.len() implies a[i] == b.take(a.len() as int)[i] by {
                    if i > 0 {
                        assert(a[i] == a1[i - 1]);
                        assert(a1[i - 1] == b1.take(a1.len() as int)[i - 1]);
                    }
                }
                assert(a =~= b.take(a.len() as int));
            }
            if exists|k: int| 0 <= k < a.len() && k < b.len() && a.take(k) == b.take(k) && #[trigger] a[k] < b[k] {
                let k = choose|k: int| 0 <= k < a.len() && k < b.len() && a.take(k) == b.take(k) && #[trigger] a[k] < b[k];
                assert(k > 0);
                assert(a1.take(k - 1) =~= a.take(k).drop_first());
                assert(b1.take(k - 1) =~= b.take(k).drop_first());
                assert(a1[k - 1] < b1[k - 1]);
            }
            if exists|k: int| 0 <= k < a1.len() && k < b1.len() && a1.take(k) == b1.take(k) && #[trigger] a1[k] < b1[k] {
                let k = choose|k: int| 0 <= k < a1.len() && k < b1.len() && a1.take(k) == b1.take(k) && #[trigger] a1[k] < b1[k];
                assert(a.take(k + 1) =~= seq![a[0]] + a1.take(k));
                assert(b.take(k + 1) =~= seq![b[0]] + b1.take(k));
                assert(a[k + 1] < b[k + 1]);
            }
        }
    }
}

/// The order agrees with the numeric order on numbers, with the
/// lexicographic order of the UTF-8 bytes on strings, and holds between no
/// two values of different types.
pub proof fn lemma_value_le_numeric(a: ValueView, b: ValueView)
    ensures
        a is Int && b is Int ==> (value_le(a, b) <==> a->Int_0 <= b->Int_0),
        a is UInt && b is UInt ==> (value_le(a, b) <==> a->UInt_0 <= b->UInt_0),
        a is RowID && b is RowID ==> (value_le(a, b) <==> a->RowID_0 <= b->RowID_0),
        a is Varchar && b is Varchar ==> (value_le(a, b) <==> {
            let x = encode_utf8(a->Varchar_0);
            let y = encode_utf8(b->Varchar_0);
            (x.len() <= y.len() && x == y.take(x.len() as int)) || exists|k: int|
                0 <= k < x.len() && k < y.len() && x.take(k) == y.take(k) && #[trigger] x[k] < y[k]
        }),
        !same_type(a, b) ==> !value_le(a, b),
{
    if a is Varchar && b is Varchar {
        lemma_bytes_le_lexicographic(encode_utf8(a->Varchar_0), encode_utf8(b->Varchar_0));
    }
}

/// The order of values of one type is total, reflexive, transitive and
/// antisymmetric.
pub proof fn lemma_value_order(a: ValueView, b: ValueView, c: ValueView)
    requires
        same_type(a, b),
        same_type(b, c),
    ensures
        value_le(a, a),
        value_le(a, b) || value_le(b, a),
        value_le(a, b) && value_le(b, c) ==> value_le(a, c),
        value_le(a, b) && value_le(b, a) ==> a == b,
{
    match (a, b, c) {
        (ValueView::Varchar(x), ValueView::Varchar(y), ValueView::Varchar(z)) => {
            lemma_bytes_le_total(encode_utf8(x), encode_utf8(y));
            lemma_bytes_le_total(encode_utf8(x), encode_utf8(x));
            if value_le(a, b) && value_le(b, c) {
                lemma_bytes_le_trans(encode_utf8(x), encode_utf8(y), encode_utf8(z));
            }
            if value_le(a, b) && value_le(b, a) {
                vstd::utf8::encode_utf8_decode_utf8(x);
                vstd::utf8::encode_utf8_decode_utf8(y);
            }
        },
        _ => {},
    }
}

} // verus!
