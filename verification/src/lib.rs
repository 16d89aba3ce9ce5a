//! Counting prime factors over a range of integers.
//!
//! Workers draw integers from one shared [`cursor::Cursor`], count the
//! divisions that trial division performs on each, and tally the counts in a
//! histogram per worker; the histograms are merged once every worker is done.

pub mod cursor;
pub mod factor;
pub mod histogram;
pub mod worker;
