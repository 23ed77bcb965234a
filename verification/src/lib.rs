//! A minimal persistent table store: a catalog of named dataspaces, each
//! holding named tables, each table backed by line-oriented page files.
//! The row codec, schema enforcement, catalog uniqueness and the page
//! format are verified; reading and writing the actual files is left to
//! an embedding process through the `FileSystem` abstraction.

pub mod codec;
pub mod dataspace;
pub mod dbms;
pub mod fields;
pub mod index;
pub mod rows;
pub mod store;
pub mod strutil;
pub mod tables;
