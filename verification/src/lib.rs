pub mod error;
pub mod page;
pub mod btree;
pub mod row;
pub mod heap;
pub mod table;
pub mod query;
pub mod executor;
pub mod wal;
