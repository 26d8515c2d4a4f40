//! Column-oriented DataFrames and the keys, queries, joins and indexes that act on them.
pub mod key;
pub mod column;
pub mod text;
pub mod factor;
pub mod deserialize;
pub mod status;
pub mod index;
pub mod frame;
pub mod rowkey;
pub mod sort;
pub mod query;
pub mod group;
pub mod join;
pub mod join_rows;
pub mod join_chain;
pub mod access;
pub mod column_copy;
pub mod frame_trait;
pub mod setcols;
pub mod indexing;
pub mod bind;
pub mod pivot;
pub mod do_query;
pub mod io;
pub mod display;
