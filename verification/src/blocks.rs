//! The blocks an app is made of.

pub mod block;
pub mod root;
pub mod search;
pub mod while_loop;
