//! Declarative apps over versioned datasets.
//!
//! An app is a list of blocks. It is run over the records of a dataset, block by block, and
//! what each block gave for each record is kept as the trace of the run. Blocks, apps and
//! datasets are named by the hash of their content, so that what was computed once can be
//! found again.
//!
//! - [`text`], [`hashing`] and [`json`] hold what the rest is built from: strings, content
//!   hashes, and JSON values with the text they are read from and written to.
//! - [`data`] holds datasets, [`blocks`] the blocks, [`app`] apps.
//! - [`engine`] runs an app over the records of a dataset.
//! - [`store`] says what a store contains and what each of its operations makes of it;
//!   [`memory`] is a store that keeps everything in memory. [`project`] and [`run`] hold what
//!   a store keeps besides datasets, [`http`] and [`llm`] the requests whose answers it
//!   caches.

pub mod app;
pub mod blocks;
pub mod data;
pub mod engine;
pub mod hashing;
pub mod http;
pub mod json;
pub mod llm;
pub mod memory;
pub mod project;
pub mod run;
pub mod store;
pub mod text;
