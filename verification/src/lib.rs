//! A page-oriented storage core: page addressing for table files, a catalog
//! of open tables, fixed-layout record schemas and a forward-only cursor over
//! the records of a table's occupied pages.
//!
//! The library performs no input or output itself. Every operation on a
//! table's file is handed out as a request, a [`storage::PageWrite`] or a
//! [`storage::PageRead`], that says which file to touch and where; the
//! caller carries it out and reports how it went.

pub mod cursor;
pub mod image;
pub mod record;
pub mod storage;
