//! A set of `u32` values kept in sorted form, with a lazy mode that defers normalisation over a
//! chain of set operations, and cursors that walk the elements in both directions.
pub mod bitmap;
pub mod iter;
pub mod lazy;
pub mod sorted;

pub use bitmap::Bitmap;
pub use iter::{BitmapIntoIterator, BitmapIterator};
pub use lazy::{LazyBitmap, LazyOwnedBitmap};
