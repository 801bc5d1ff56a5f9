//! An in-memory database for rows whose fields hold ternary values.
pub mod ternary;
pub mod row;
pub mod table;
pub mod index;
pub mod transaction;
pub mod query;
pub mod text;
pub mod parser;

pub use ternary::{FieldValue, Ternary};
pub use row::Row;
pub use table::TernaryTable;
pub use index::{TernaryBTreeIndex, TernaryHashIndex};
pub use transaction::{TernaryTransaction, TxnOp};
pub use query::{FilterOp, SortDir, TernaryCounts, TernaryQuery};
pub use parser::{parse_ternary_query, ParsedQuery};
