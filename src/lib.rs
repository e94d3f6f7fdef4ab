//! A small page-oriented relational storage engine: slotted pages, a
//! clock-sweep buffer pool, a write-ahead log, typed tuple encoding and
//! relation-scoped insert and scan.

pub mod codec;
pub mod text;
pub mod error;
pub mod data_type;
pub mod buf_key;
pub mod buf_page;
pub mod log;
pub mod buf_mgr;
pub mod tuple_desc;
pub mod rel;
pub mod types;
