//! What the protocol needs from the local block store.

use vstd::prelude::*;
use crate::octets::copy_bytes;
use crate::types::{BlockHash, Number};

verus! {

/// Names a block by its hash or by its number.
#[derive(Clone, Copy, Debug, PartialEq, Eq)]
pub enum BlockId {
    /// The block with this hash.
    Hash(BlockHash),
    /// The block with this number on the best chain.
    Number(Number),
}

/// What the protocol reads of a block header.
#[derive(Debug, PartialEq, Eq)]
pub struct Header {
    /// The number of the block.
    pub number: Number,
    /// The hash of the block.
    pub hash: BlockHash,
    /// The hash of the block's parent.
    pub parent_hash: BlockHash,
    /// The header in the node's binary encoding.
    pub encoded: Vec<u8>,
}

/// The mathematical content of a [`Header`].
pub struct HeaderView {
    pub number: Number,
    pub hash: BlockHash,
    pub parent_hash: BlockHash,
    pub encoded: Seq<u8>,
}

impl View for Header {
    type V = HeaderView;

    open spec fn view(&self) -> HeaderView {
        HeaderView {
            number: self.number,
            hash: self.hash,
            parent_hash: self.parent_hash,
            encoded: self.encoded@,
        }
    }
}

impl Clone for Header {
    fn clone(&self) -> (r: Header)
        ensures
            r@ == self@,
    {
        Header {
            number: self.number,
            hash: self.hash,
            parent_hash: self.parent_hash,
            encoded: copy_bytes(self.encoded.as_slice()),
        }
    }
}

/// A failure of the block store.
#[derive(Clone, Debug, PartialEq, Eq)]
pub struct ClientError {
    /// What went wrong, for the log.
    pub message: String,
}

/// Read access to the local chain.
///
/// The store may change between two calls; nothing is assumed of what a call
/// gives back.
pub trait Client {
    /// The header of the block that `id` names, if the store has it.
    fn header(&self, id: &BlockId) -> Result<Option<Header>, ClientError>;

    /// The encoded extrinsics of the body of the block that `id` names, if the
    /// store has them.
    fn block_body(&self, id: &BlockId) -> Result<Option<Vec<Vec<u8>>>, ClientError>;

    /// The justification of the block that `id` names, if there is one.
    fn justification(&self, id: &BlockId) -> Result<Option<Vec<u8>>, ClientError>;
}

} // verus!
