//! The `root` block, which hands on the input record.

use crate::blocks::block::{Block, BlockError, BlockItem, BlockType, Env, ParseError};
use crate::hashing::{absorb, hash_bytes};
use crate::json::JsonValue;
use vstd::prelude::*;
use vstd::utf8::encode_utf8;

verus! {

/// The `root` block. It has no parameters.
#[derive(Clone, Copy)]
pub struct Root {}

impl Root {
    /// A `root` block, whatever its body holds.
    pub fn parse(_items: &Vec<BlockItem>) -> (r: Result<Root, ParseError>)
        ensures
            r is Ok,
    {
        Ok(Root {  })
    }

    /// Executes the block: the input record comes back unchanged.
    pub fn execute(&self, _name: &str, env: &Env) -> (r: Result<JsonValue, BlockError>)
        requires
            env.input.value is Some,
        ensures
            r matches Ok(value) && value@ == env.input.value->0@,
    {
        match &env.input.value {
            Some(value) => Ok(value.clone()),
            None => unreached(),
        }
    }
}

/// Any two `root` blocks have the same hash.
pub proof fn root_hash_by_parameters(a: Root, b: Root)
    ensures
        a.hashed() == b.hashed(),
        crate::hashing::content_hash(a.hashed()) == crate::hashing::content_hash(b.hashed()),
{
}

impl Block for Root {
    open spec fn kind(&self) -> BlockType {
        BlockType::Root
    }

    /// A `root` block always runs.
    open spec fn condition(&self) -> Option<Seq<char>> {
        None
    }

    /// What is hashed for a `root` block: its keyword.
    open spec fn hashed(&self) -> Seq<u8> {
        encode_utf8(BlockType::Root.keyword())
    }

    fn block_type(&self) -> (t: BlockType) {
        BlockType::Root
    }

    fn run_if(&self) -> (r: Option<String>) {
        None
    }

    fn inner_hash(&self) -> (h: String) {
        let mut buffer: Vec<u8> = Vec::new();
        absorb(&mut buffer, BlockType::Root.as_str());
        assert(buffer@ == self.hashed());
        hash_bytes(buffer.as_slice())
    }
}

} // verus!
