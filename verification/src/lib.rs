//! Front end and dynamic value core of a small scripting language whose
//! keywords are stylised words (`form`, `journey`, `whilst`, ...).
//!
//! The crate has two halves. [`parse`] turns source text into tokens: a
//! character stream with put-back, and a tokenizer that understands numerals
//! in Arabic and Roman notation and text literals with escapes and embedded
//! expressions. [`value`] holds the runtime values (numerals, text, maps,
//! closures, ...) and the operations that every value offers.
//!
//! Every executable function carries a contract that Verus proves; the
//! contracts are stated over the mathematical views of the data.

pub mod error;
pub mod unicode;
pub mod parse;
pub mod value;
