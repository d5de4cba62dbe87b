//! Bitmap indexes. Row `R` is bit `R mod 8` of byte `R / 8` of a bitmap.

pub mod bitmap;
pub mod index_iterator;
pub mod naive_bitmap_index;
pub mod range_encoded_bitmap_index;
pub mod decomposed_bitmap_index;
