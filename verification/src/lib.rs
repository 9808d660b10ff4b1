//! A read-only decoder for single-file SQLite databases: pages, cells and
//! records are decoded straight from the bytes of the file, and a small
//! `SELECT` subset is answered by walking the file's B-trees.

pub mod btree_page_header;
pub mod cell;
pub mod common;
pub mod database;
pub mod database_header;
pub mod error;
pub mod pattern;
pub mod query;
pub mod query_executor;
pub mod reader;
pub mod scan;
pub mod schema;
pub mod sequence;
pub mod text;
pub mod tree;
pub mod record;
pub mod varint;
