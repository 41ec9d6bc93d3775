//! The storage core of a small relational database: a B+Tree index from
//! keys to values over a store of pages.
//!
//! - `values`, `series`, `bytes`: column values and rows, and their
//!   self-describing byte form.
//! - `keys`: what the index asks of its keys and values.
//! - `bits`, `page`: pages, and their byte form in slots of a fixed size.
//! - `pager`, `book`: stores of pages, in memory and for a file.
//! - `model`, `walk`, `laws`: the model of the index, and what holds of it.
//! - `layout`, `grow`: how the pages of the index stand for the model, and
//!   how a split keeps them in order.
//! - `btree`: the index.
//! - `sql`: the statements of the shell.
//! - `outside`: the calls out of the library, whose contracts are taken on
//!   trust.

pub mod bits;
pub mod book;
pub mod btree;
pub mod bytes;
pub mod grow;
pub mod keys;
pub mod laws;
pub mod layout;
pub mod model;
pub mod outside;
pub mod page;
pub mod pager;
pub mod series;
pub mod sql;
pub mod values;
pub mod walk;
