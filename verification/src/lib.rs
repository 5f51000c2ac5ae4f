//! Natural-order comparison and sorting of strings.
//!
//! Strings are compared the way a person reads them: a run of decimal digits
//! inside a string counts as one number, so that `"z9"` comes before `"z10"`.
//!
//! A string is cut into a prefix without digits, the number that its first run
//! of digits denotes, and the remainder after that run. Two strings compare by
//! their prefixes, then by their numbers, then by their remainders, which are
//! cut and compared in the same way.
//!
//! Only the characters `'0'` to `'9'` are digits. Numbers are held in 64 bits:
//! a string with a run of digits that denotes a larger number is rejected with
//! [`Overflow`], and nothing is computed from it.

pub mod digits;
pub mod order;
pub mod parts;
pub mod segment;
pub mod sort;

pub use order::lexical_compare;
pub use parts::{char_is_digit, is_representable, Overflow, StringParts};
pub use sort::natural_sort;
