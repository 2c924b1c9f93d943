//! Parsing of itemised purchase records and the accounting of who owes whom.
pub mod price;
pub mod text;
pub mod receipt;
pub mod accounting;
