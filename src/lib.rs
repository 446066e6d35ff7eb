//! A Bifid cipher over a 5×5 key table of the 25 letters `A`–`Z` without
//! `J`, which is written as `I`.
pub mod letters;
pub mod table;
pub mod transform;

pub use letters::letter_filter;
pub use table::Table;
pub use transform::{annotate, cipher, reorder};
