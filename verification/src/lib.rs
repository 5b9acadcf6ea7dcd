//! A chained hash table built on an explicit bucket array.
//!
//! A key's hash is spread by a multiplicative (Fibonacci) step and folded
//! into a bucket index by keeping the top `index_bits` bits of the 64-bit
//! product.  The bucket array doubles whenever the load factor crosses one
//! half, and every stored entry is rehashed into the new array, so no entry
//! is ever lost to a stale index.  Lookups scan one bucket in insertion
//! order and return the first entry whose key matches.
pub mod hashing;
pub mod lookup;
pub mod table;

pub use hashing::Hashable;
pub use lookup::first_match;
pub use table::FlatHashMap;
