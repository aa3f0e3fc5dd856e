//! Block requests and responses as the node holds them in memory.

use vstd::prelude::*;
use crate::octets::{opt_seq, opt_seqs};
use crate::types::{same_opt_hash, BlockHash, Number};

verus! {

/// Flag: the block header is wanted.
pub const HEADER: u8 = 0x01;

/// Flag: the block body is wanted.
pub const BODY: u8 = 0x02;

/// Flag: the block receipt is wanted.
pub const RECEIPT: u8 = 0x04;

/// Flag: the block message queue is wanted.
pub const MESSAGE_QUEUE: u8 = 0x08;

/// Flag: the block justification is wanted.
pub const JUSTIFICATION: u8 = 0x10;

/// All the flags that exist.
pub const ALL_ATTRIBUTES: u8 = 0x1f;

/// The bits of the 32-bit encoding that no flag uses.
pub const UNUSED_ATTRIBUTE_BITS: u32 = 0xe0ff_ffff;

/// A set of block attributes: which parts of a block a request asks for.
#[derive(Clone, Copy, Debug, PartialEq, Eq, Structural)]
pub struct BlockAttributes {
    pub bits: u8,
}

/// A 32-bit value that sets bits which stand for no block attribute.
#[derive(Clone, Copy, Debug, PartialEq, Eq, Structural)]
pub struct InvalidAttributes {
    pub encoded: u32,
}

/// The attribute set that `encoded` stands for: the flags sit in the most
/// significant byte, and every other bit must be zero.
pub open spec fn attributes_of(encoded: u32) -> Option<BlockAttributes> {
    if encoded & UNUSED_ATTRIBUTE_BITS != 0 {
        None
    } else {
        Some(BlockAttributes { bits: (encoded >> 24) as u8 })
    }
}

impl BlockAttributes {
    /// Whether only existing flags are set.
    pub open spec fn valid(self) -> bool {
        self.bits & !ALL_ATTRIBUTES == 0
    }

    /// Whether every flag of `flags` is in the set.
    pub open spec fn has(self, flags: u8) -> bool {
        self.bits & flags == flags
    }

    /// The 32-bit value whose big-endian bytes are the flags followed by three zero bytes.
    pub open spec fn be_u32(self) -> u32 {
        (self.bits as u32) << 24
    }

    /// The set holding exactly the flags in `bits`, where all of them exist.
    pub fn from_bits(bits: u8) -> (r: Option<BlockAttributes>)
        ensures
            r == if bits & !ALL_ATTRIBUTES == 0 {
                Some(BlockAttributes { bits })
            } else {
                None
            },
    {
        if bits & !ALL_ATTRIBUTES == 0 {
            Some(BlockAttributes { bits })
        } else {
            None
        }
    }

    /// The empty set.
    pub fn empty() -> (r: BlockAttributes)
        ensures
            r.bits == 0,
            r.valid(),
    {
        assert(0u8 & !0x1fu8 == 0) by (bit_vector);
        BlockAttributes { bits: 0 }
    }

    /// The flags of the set.
    pub fn bits(&self) -> (r: u8)
        ensures
            r == self.bits,
    {
        self.bits
    }

    /// Whether every flag of `flags` is in the set.
    pub fn contains(&self, flags: u8) -> (r: bool)
        ensures
            r == self.has(flags),
    {
        self.bits & flags == flags
    }

    /// Encodes the set as a 32-bit value: big-endian, flags first.
    pub fn to_be_u32(&self) -> (r: u32)
        ensures
            r == self.be_u32(),
    {
        (self.bits as u32) << 24
    }

    /// Decodes a set from its 32-bit value; a value with an unused bit set is refused.
    pub fn from_be_u32(encoded: u32) -> (r: Result<BlockAttributes, InvalidAttributes>)
        ensures
            r == match attributes_of(encoded) {
                Some(attributes) => Ok::<BlockAttributes, InvalidAttributes>(attributes),
                None => Err(InvalidAttributes { encoded }),
            },
            r is Ok ==> r.unwrap().valid(),
    {
        if encoded & UNUSED_ATTRIBUTE_BITS != 0 {
            Err(InvalidAttributes { encoded })
        } else {
            let bits: u8 = (encoded >> 24) as u8;
            assert(encoded & 0xe0ff_ffffu32 == 0 ==> ((encoded >> 24) as u8) & !0x1fu8 == 0)
                by (bit_vector);
            Ok(BlockAttributes { bits })
        }
    }
}

/// A valid attribute set comes back unchanged from its 32-bit encoding.
pub proof fn lemma_attributes_round_trip(attributes: BlockAttributes)
    requires
        attributes.valid(),
    ensures
        attributes_of(attributes.be_u32()) == Some(attributes),
{
    let bits = attributes.bits;
    assert(bits & !0x1fu8 == 0 ==> ((bits as u32) << 24) & 0xe0ff_ffffu32 == 0 && ((((bits as u32)
        << 24) >> 24) as u8) == bits) by (bit_vector);
}

/// A 32-bit value that decodes to an attribute set is the encoding of that set.
pub proof fn lemma_attributes_encoding_unique(encoded: u32)
    requires
        attributes_of(encoded) is Some,
    ensures
        attributes_of(encoded).unwrap().be_u32() == encoded,
        attributes_of(encoded).unwrap().valid(),
{
    assert(encoded & 0xe0ff_ffffu32 == 0 ==> ((((encoded >> 24) as u8) as u32) << 24) == encoded
        && ((encoded >> 24) as u8) & !0x1fu8 == 0) by (bit_vector);
}

/// The direction in which a request walks the chain.
#[derive(Clone, Copy, Debug, PartialEq, Eq, Structural)]
pub enum Direction {
    /// From the start block towards higher numbers.
    Ascending,
    /// From the start block towards genesis, parent by parent.
    Descending,
}

/// The block at which a request starts.
#[derive(Clone, Copy, Debug, PartialEq, Eq)]
pub enum FromBlock {
    /// The block with this hash.
    Hash(BlockHash),
    /// The block with this number.
    Number(Number),
}

impl FromBlock {
    /// Whether both values name the same start.
    pub fn same(&self, other: &FromBlock) -> (r: bool)
        ensures
            r == (*self == *other),
    {
        match (self, other) {
            (FromBlock::Hash(a), FromBlock::Hash(b)) => a.same(b),
            (FromBlock::Number(a), FromBlock::Number(b)) => *a == *b,
            _ => false,
        }
    }
}

/// A request for block data, as issued to a remote peer.
#[derive(Clone, Copy, Debug, PartialEq, Eq)]
pub struct BlockRequest {
    /// Identifier chosen by the requester; the response carries it back.
    pub id: u64,
    /// The parts of each block that are wanted.
    pub fields: BlockAttributes,
    /// The block to start from.
    pub from: FromBlock,
    /// The block to stop at, as a hint to the responder.
    pub to: Option<BlockHash>,
    /// The direction of the walk.
    pub direction: Direction,
    /// The largest number of blocks wanted; `None` leaves it to the responder.
    pub max: Option<u32>,
}

impl BlockRequest {
    /// Whether both requests are the same in every field.
    pub fn same(&self, other: &BlockRequest) -> (r: bool)
        ensures
            r == (*self == *other),
    {
        let max_same: bool = match (self.max, other.max) {
            (Some(a), Some(b)) => a == b,
            (None, None) => true,
            _ => false,
        };
        self.id == other.id && self.fields.bits == other.fields.bits && self.from.same(&other.from)
            && same_opt_hash(&self.to, &other.to) && self.direction == other.direction
            && max_same
    }
}

/// The data of one block of a response.
#[derive(Debug, PartialEq, Eq)]
pub struct BlockData {
    /// The hash of the block.
    pub hash: BlockHash,
    /// The encoded header, if the response carries one.
    pub header: Option<Vec<u8>>,
    /// The encoded extrinsics of the body, if the body was requested.
    pub body: Option<Vec<Vec<u8>>>,
    /// The receipt, if the response carries one.
    pub receipt: Option<Vec<u8>>,
    /// The message queue, if the response carries one.
    pub message_queue: Option<Vec<u8>>,
    /// The justification, if there is one; an empty one is still one.
    pub justification: Option<Vec<u8>>,
}

/// The mathematical content of a [`BlockData`].
pub struct BlockDataView {
    pub hash: Seq<u8>,
    pub header: Option<Seq<u8>>,
    pub body: Option<Seq<Seq<u8>>>,
    pub receipt: Option<Seq<u8>>,
    pub message_queue: Option<Seq<u8>>,
    pub justification: Option<Seq<u8>>,
}

impl View for BlockData {
    type V = BlockDataView;

    open spec fn view(&self) -> BlockDataView {
        BlockDataView {
            hash: self.hash.bytes@,
            header: opt_seq(self.header),
            body: opt_seqs(self.body),
            receipt: opt_seq(self.receipt),
            message_queue: opt_seq(self.message_queue),
            justification: opt_seq(self.justification),
        }
    }
}

/// The blocks of a list, each by its content.
pub open spec fn block_views(blocks: Seq<BlockData>) -> Seq<BlockDataView> {
    Seq::new(blocks.len(), |i: int| blocks[i]@)
}

/// The answer to a [`BlockRequest`].
#[derive(Debug, PartialEq, Eq)]
pub struct BlockResponse {
    /// The identifier of the request that this answers.
    pub id: u64,
    /// The blocks, in the order of the walk.
    pub blocks: Vec<BlockData>,
}

/// The mathematical content of a [`BlockResponse`].
pub struct BlockResponseView {
    pub id: u64,
    pub blocks: Seq<BlockDataView>,
}

impl View for BlockResponse {
    type V = BlockResponseView;

    open spec fn view(&self) -> BlockResponseView {
        BlockResponseView { id: self.id, blocks: block_views(self.blocks@) }
    }
}

} // verus!
