//! Combinatorial wordlist generation: every word that can be formed by
//! taking one candidate from each field of a template, in field order.
//!
//! A template is a list of fields. A field names its candidates one by one,
//! separated by `|` ([`tokenizer`]), or gives a bounded pattern that stands
//! for every string it matches ([`pattern`]); [`field`] turns either into a
//! list of candidates. [`product`] numbers the combinations of the fields and
//! decodes a number into its word. [`coordinator`] deals the numbers out to
//! workers and tells each worker what to do next, so that a caller can write
//! the words from many threads to one sink.

pub mod coordinator;
pub mod error;
pub mod field;
pub mod pattern;
pub mod product;
pub mod text;
pub mod tokenizer;
