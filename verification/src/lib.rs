//! Lexicographic comparison of values by the text they render to, without
//! ever building that text.

pub mod cmp;
pub mod integer;

pub use self::cmp::{cmp, eq, hash, Cmp};
pub use self::integer::{cmp_dec, cmp_int};
