//! Reading region containers of a block world and extracting the item
//! records that their chunks hold.
//!
//! `region` decodes a container's sector table and plans the sequential
//! reads that visit its sub-records; `chunk` decodes one sub-record;
//! `tree` and `extract` hold a decoded chunk and pick out its item records;
//! `scan` and `options` hold the rules and options of a dimension scan.
pub mod chunk;
pub mod extract;
pub mod options;
pub mod region;
pub mod scan;
pub mod shape;
pub mod text;
pub mod tree;
