//! Bits of byte-packed bitmaps.

use vstd::prelude::*;

verus! {

/// Bit `k` of byte `b`.
pub open spec fn bit_of(b: u8, k: u8) -> bool {
    (b >> k) & 1u8 == 1u8
}

/// Whether row `r` is set in `bm`: bit `r % 8` of byte `r / 8`.
pub open spec fn row_bit(bm: Seq<u8>, r: int) -> bool {
    0 <= r < 8 * bm.len() && bit_of(bm[r / 8], (r % 8) as u8)
}

/// Number of bytes of a bitmap over `n` rows.
pub open spec fn bitmap_len(n: int) -> int {
    (n + 7) / 8
}

/// Bit `k` of `a | b` is set when it is set in `a` or in `b`.
pub proof fn lemma_bit_or(a: u8, b: u8, k: u8)
    requires
        k < 8,
    ensures
        bit_of(a | b, k) == (bit_of(a, k) || bit_of(b, k)),
{
    assert(((a | b) >> k) & 1u8 == 1u8 <==> ((a >> k) & 1u8 == 1u8 || (b >> k) & 1u8 == 1u8))
        by (bit_vector)
        requires
            k < 8,
    ;
}

/// Bit `k` of `a & b` is set when it is set in both.
pub proof fn lemma_bit_and(a: u8, b: u8, k: u8)
    requires
        k < 8,
    ensures
        bit_of(a & b, k) == (bit_of(a, k) && bit_of(b, k)),
{
    assert(((a & b) >> k) & 1u8 == 1u8 <==> ((a >> k) & 1u8 == 1u8 && (b >> k) & 1u8 == 1u8))
        by (bit_vector)
        requires
            k < 8,
    ;
}

/// Bit `k` of `!a` is set when it is clear in `a`.
pub proof fn lemma_bit_not(a: u8, k: u8)
    requires
        k < 8,
    ensures
        bit_of(!a, k) == !bit_of(a, k),
{
    assert(((!a) >> k) & 1u8 == 1u8 <==> !((a >> k) & 1u8 == 1u8)) by (bit_vector)
        requires
            k < 8,
    ;
}

/// Setting bit `j` of `a` sets it and leaves the other bits alone.
pub proof fn lemma_bit_set(a: u8, j: u8, k: u8)
    requires
        k < 8,
        j < 8,
    ensures
        bit_of(a | (1u8 << j), k) == (k == j || bit_of(a, k)),
{
    assert(((a | (1u8 << j)) >> k) & 1u8 == 1u8 <==> (k == j || (a >> k) & 1u8 == 1u8))
        by (bit_vector)
        requires
            k < 8,
            j < 8,
    ;
}

/// No bit of `0` is set and every bit of `0xff` is.
pub proof fn lemma_bit_zero_full(k: u8)
    requires
        k < 8,
    ensures
        !bit_of(0u8, k),
        bit_of(255u8, k),
{
    assert(!((0u8 >> k) & 1u8 == 1u8) && (255u8 >> k) & 1u8 == 1u8) by (bit_vector)
        requires
            k < 8,
    ;
}

/// A bitmap of `len` zero bytes.
pub fn zero_bitmap(len: usize) -> (r: Vec<u8>)
    ensures
        r@.len() == len,
        forall|i: int| 0 <= i < len ==> r@[i] == 0u8,
        forall|row: int| !row_bit(r@, row),
{
    let mut r: Vec<u8> = Vec::new();
    let mut i: usize = 0;
    while i < len
        invariant
            i <= len,
            r@.len() == i,
            forall|j: int| 0 <= j < i ==> r@[j] == 0u8,
        decreases len - i,
    {
        r.push(0u8);
        i = i + 1;
    }
    proof {
        assert forall|row: int| !row_bit(r@, row) by {
            if 0 <= row < 8 * r@.len() {
                lemma_bit_zero_full((row % 8) as u8);
            }
        }
    }
    r
}

/// A bitmap of `len` bytes with every bit set.
pub fn full_bitmap(len: usize) -> (r: Vec<u8>)
    ensures
        r@.len() == len,
        forall|row: int| 0 <= row < 8 * len ==> row_bit(r@, row),
{
    let mut r: Vec<u8> = Vec::new();
    let mut i: usize = 0;
    while i < len
        invariant
            i <= len,
            r@.len() == i,
            forall|j: int| 0 <= j < i ==> r@[j] == 255u8,
        decreases len - i,
    {
        r.push(255u8);
        i = i + 1;
    }
    proof {
        assert forall|row: int| 0 <= row < 8 * len implies row_bit(r@, row) by {
            lemma_bit_zero_full((row % 8) as u8);
        }
    }
    r
}

/// Sets row `row` in `bm`.
pub fn set_row(bm: &mut Vec<u8>, row: usize)
    requires
        row < 8 * old(bm)@.len(),
    ensures
        final(bm)@.len() == old(bm)@.len(),
        forall|r: int| row_bit(final(bm)@, r) == (r == row || row_bit(old(bm)@, r)),
{
    let byte = row / 8;
    let bit = (row % 8) as u8;
    let old_byte = bm[byte];
    bm.set(byte, old_byte | (1u8 << bit));
    proof {
        assert forall|r: int| row_bit(bm@, r) == (r == row || row_bit(old(bm)@, r)) by {
            if 0 <= r < 8 * bm@.len() {
                lemma_bit_set(old_byte, bit, (r % 8) as u8);
                if r / 8 != byte as int {
                    assert(r != row);
                } else if r % 8 == bit as int {
                    assert(r == row);
                } else {
                    assert(r != row);
                }
            }
        }
    }
}

/// `acc |= other & mask`, byte by byte, over the common prefix.
pub fn or_masked(acc: &mut Vec<u8>, other: &Vec<u8>, mask: &Vec<u8>)
    requires
        other@.len() >= old(acc)@.len(),
        mask@.len() >= old(acc)@.len(),
    ensures
        final(acc)@.len() == old(acc)@.len(),
        forall|r: int|
            0 <= r < 8 * old(acc)@.len() ==> #[trigger] row_bit(final(acc)@, r) == (row_bit(old(acc)@, r) || (
            row_bit(other@, r) && row_bit(mask@, r))),
{
    let n = acc.len();
    let mut i: usize = 0;
    while i < n
        invariant
            i <= n,
            n == acc@.len(),
            acc@.len() == old(acc)@.len(),
            other@.len() >= n,
            mask@.len() >= n,
            forall|j: int| i <= j < n ==> acc@[j] == old(acc)@[j],
            forall|j: int| 0 <= j < i ==> acc@[j] == old(acc)@[j] | (other@[j] & mask@[j]),
        decreases n - i,
    {
        let v = acc[i] | (other[i] & mask[i]);
        acc.set(i, v);
        i = i + 1;
    }
    proof {
        assert forall|r: int| 0 <= r < 8 * old(acc)@.len() implies #[trigger] row_bit(acc@, r) == (row_bit(
            old(acc)@,
            r,
        ) || (row_bit(other@, r) && row_bit(mask@, r))) by {
            let k = (r % 8) as u8;
            let j = r / 8;
            assert(acc@[j] == old(acc)@[j] | (other@[j] & mask@[j]));
            lemma_bit_or(old(acc)@[j], other@[j] & mask@[j], k);
            lemma_bit_and(other@[j], mask@[j], k);
        }
    }
}

/// `acc |= other` over the common prefix.
pub fn or_into(acc: &mut Vec<u8>, other: &Vec<u8>)
    requires
        other@.len() >= old(acc)@.len(),
    ensures
        final(acc)@.len() == old(acc)@.len(),
        forall|r: int|
            0 <= r < 8 * old(acc)@.len() ==> #[trigger] row_bit(final(acc)@, r) == (row_bit(old(acc)@, r)
                || row_bit(other@, r)),
{
    let n = acc.len();
    let mut i: usize = 0;
    while i < n
        invariant
            i <= n,
            n == acc@.len(),
            acc@.len() == old(acc)@.len(),
            other@.len() >= n,
            forall|j: int| i <= j < n ==> acc@[j] == old(acc)@[j],
            forall|j: int| 0 <= j < i ==> acc@[j] == old(acc)@[j] | other@[j],
        decreases n - i,
    {
        let v = acc[i] | other[i];
        acc.set(i, v);
        i = i + 1;
    }
    proof {
        assert forall|r: int| 0 <= r < 8 * old(acc)@.len() implies #[trigger] row_bit(acc@, r) == (row_bit(
            old(acc)@,
            r,
        ) || row_bit(other@, r)) by {
            assert(acc@[r / 8] == old(acc)@[r / 8] | other@[r / 8]);
            lemma_bit_or(old(acc)@[r / 8], other@[r / 8], (r % 8) as u8);
            assert(bit_of(acc@[r / 8], (r % 8) as u8) == (bit_of(old(acc)@[r / 8], (r % 8) as u8) || bit_of(other@[r / 8], (r % 8) as u8)));
            assert(row_bit(other@, r) == bit_of(other@[r / 8], (r % 8) as u8));
            assert(row_bit(acc@, r) == bit_of(acc@[r / 8], (r % 8) as u8));
        }
        assert(acc@.len() == old(acc)@.len());
    }
}

/// `acc &= other` over the common prefix.
pub fn and_into(acc: &mut Vec<u8>, other: &Vec<u8>)
    requires
        other@.len() >= old(acc)@.len(),
    ensures
        final(acc)@.len() == old(acc)@.len(),
        forall|r: int|
            0 <= r < 8 * old(acc)@.len() ==> #[trigger] row_bit(final(acc)@, r) == (row_bit(old(acc)@, r)
                && row_bit(other@, r)),
{
    let n = acc.len();
    let mut i: usize = 0;
    while i < n
        invariant
            i <= n,
            n == acc@.len(),
            acc@.len() == old(acc)@.len(),
            other@.len() >= n,
            forall|j: int| i <= j < n ==> acc@[j] == old(acc)@[j],
            forall|j: int| 0 <= j < i ==> acc@[j] == old(acc)@[j] & other@[j],
        decreases n - i,
    {
        let v = acc[i] & other[i];
        acc.set(i, v);
        i = i + 1;
    }
    proof {
        assert forall|r: int| 0 <= r < 8 * old(acc)@.len() implies #[trigger] row_bit(acc@, r) == (row_bit(
            old(acc)@,
            r,
        ) && row_bit(other@, r)) by {
            assert(acc@[r / 8] == old(acc)@[r / 8] & other@[r / 8]);
            lemma_bit_and(old(acc)@[r / 8], other@[r / 8], (r % 8) as u8);
        }
    }
}

/// `acc &= !other` over the common prefix.
pub fn and_not_into(acc: &mut Vec<u8>, other: &Vec<u8>)
    requires
        other@.len() >= old(acc)@.len(),
    ensures
        final(acc)@.len() == old(acc)@.len(),
        forall|r: int|
            0 <= r < 8 * old(acc)@.len() ==> #[trigger] row_bit(final(acc)@, r) == (row_bit(old(acc)@, r)
                && !row_bit(other@, r)),
{
    let n = acc.len();
    let mut i: usize = 0;
    while i < n
        invariant
            i <= n,
            n == acc@.len(),
            acc@.len() == old(acc)@.len(),
            other@.len() >= n,
            forall|j: int| i <= j < n ==> acc@[j] == old(acc)@[j],
            forall|j: int| 0 <= j < i ==> acc@[j] == old(acc)@[j] & !other@[j],
        decreases n - i,
    {
        let v = acc[i] & !other[i];
        acc.set(i, v);
        i = i + 1;
    }
    proof {
        assert forall|r: int| 0 <= r < 8 * old(acc)@.len() implies #[trigger] row_bit(acc@, r) == (row_bit(
            old(acc)@,
            r,
        ) && !row_bit(other@, r)) by {
            let k = (r % 8) as u8;
            assert(acc@[r / 8] == old(acc)@[r / 8] & !other@[r / 8]);
            lemma_bit_and(old(acc)@[r / 8], !other@[r / 8], k);
            lemma_bit_not(other@[r / 8], k);
        }
    }
}

} // verus!
