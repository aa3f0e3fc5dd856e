//! The messages of the block-request protocol as they travel: version 1 of
//! the protobuf schema.
//!
//! ```text
//! message BlockRequest {
//!   uint32 fields = 1;
//!   oneof from_block { bytes hash = 2; bytes number = 3; }
//!   bytes to_block = 4;
//!   Direction direction = 5;
//!   uint32 max_blocks = 6;
//! }
//! message BlockResponse { repeated BlockData blocks = 1; }
//! message BlockData {
//!   bytes hash = 1;
//!   bytes header = 2;
//!   repeated bytes body = 3;
//!   bytes receipt = 4;
//!   bytes message_queue = 5;
//!   bytes justification = 6;
//!   bool is_empty_justification = 7;
//! }
//! ```
//!
//! Encoding writes the fields in the order of their tags and leaves out a
//! field that holds its default value. Decoding takes the fields in any
//! order, lets a later value replace an earlier one, and steps over fields
//! that the schema does not know.

use vstd::prelude::*;
use vstd::slice::slice_subrange;
use crate::octets::{copy_bytes, seqs_of};
use crate::varint;
use crate::wire::{
    bytes_decoding, bytes_field, key_decoding, lemma_bytes_round_trip, lemma_key_round_trip,
    lemma_varint_round_trip, low_i32, low_u32, put_bytes_field, put_varint_field,
    skip_unknown, take_bytes, take_key, take_varint, unknown_decoding, varint_decoding,
    varint_field, widened, Key, WireError, WIRE_LEN, WIRE_VARINT,
};

verus! {

/// Wire value of the direction towards higher block numbers.
pub const ASCENDING: i32 = 0;

/// Wire value of the direction towards genesis.
pub const DESCENDING: i32 = 1;

/// The block at which a request starts, still encoded.
#[derive(Debug, PartialEq, Eq)]
pub enum FromBlock {
    /// The encoded hash of the start block.
    Hash(Vec<u8>),
    /// The encoded number of the start block.
    Number(Vec<u8>),
}

/// The mathematical content of a [`FromBlock`].
pub enum FromBlockView {
    Hash(Seq<u8>),
    Number(Seq<u8>),
}

impl View for FromBlock {
    type V = FromBlockView;

    open spec fn view(&self) -> FromBlockView {
        match self {
            FromBlock::Hash(bytes) => FromBlockView::Hash(bytes@),
            FromBlock::Number(bytes) => FromBlockView::Number(bytes@),
        }
    }
}

/// The start block of an optional [`FromBlock`], by content.
pub open spec fn from_block_view(from_block: Option<FromBlock>) -> Option<FromBlockView> {
    match from_block {
        Some(from) => Some(from@),
        None => None,
    }
}

/// A request for block data.
#[derive(Debug, PartialEq, Eq)]
pub struct BlockRequest {
    /// The wanted block attributes, as a 32-bit set of flags.
    pub fields: u32,
    /// The block to start from. A request without it is refused.
    pub from_block: Option<FromBlock>,
    /// The encoded hash of the block to stop at; a hint, and possibly empty.
    pub to_block: Vec<u8>,
    /// The direction of the walk: `ASCENDING` or `DESCENDING`.
    pub direction: i32,
    /// The largest number of blocks wanted; zero leaves it to the responder.
    pub max_blocks: u32,
}

/// The mathematical content of a [`BlockRequest`].
pub struct BlockRequestView {
    pub fields: u32,
    pub from_block: Option<FromBlockView>,
    pub to_block: Seq<u8>,
    pub direction: i32,
    pub max_blocks: u32,
}

impl View for BlockRequest {
    type V = BlockRequestView;

    open spec fn view(&self) -> BlockRequestView {
        BlockRequestView {
            fields: self.fields,
            from_block: from_block_view(self.from_block),
            to_block: self.to_block@,
            direction: self.direction,
            max_blocks: self.max_blocks,
        }
    }
}

/// The data of one block of a response.
#[derive(Debug, PartialEq, Eq)]
pub struct BlockData {
    /// The encoded hash of the block.
    pub hash: Vec<u8>,
    /// The encoded header; empty where there is none.
    pub header: Vec<u8>,
    /// The encoded extrinsics of the body.
    pub body: Vec<Vec<u8>>,
    /// The receipt; empty where there is none.
    pub receipt: Vec<u8>,
    /// The message queue; empty where there is none.
    pub message_queue: Vec<u8>,
    /// The justification; empty where there is none or where it is empty.
    pub justification: Vec<u8>,
    /// Whether the block has a justification that is empty.
    pub is_empty_justification: bool,
}

/// The mathematical content of a [`BlockData`].
pub struct BlockDataView {
    pub hash: Seq<u8>,
    pub header: Seq<u8>,
    pub body: Seq<Seq<u8>>,
    pub receipt: Seq<u8>,
    pub message_queue: Seq<u8>,
    pub justification: Seq<u8>,
    pub is_empty_justification: bool,
}

impl View for BlockData {
    type V = BlockDataView;

    open spec fn view(&self) -> BlockDataView {
        BlockDataView {
            hash: self.hash@,
            header: self.header@,
            body: seqs_of(self.body@),
            receipt: self.receipt@,
            message_queue: self.message_queue@,
            justification: self.justification@,
            is_empty_justification: self.is_empty_justification,
        }
    }
}

/// The blocks of a list, each by its content.
pub open spec fn block_views(blocks: Seq<BlockData>) -> Seq<BlockDataView> {
    Seq::new(blocks.len(), |i: int| blocks[i]@)
}

/// The answer to a block request.
#[derive(Debug, PartialEq, Eq)]
pub struct BlockResponse {
    /// The blocks, in the order of the walk.
    pub blocks: Vec<BlockData>,
}

/// The mathematical content of a [`BlockResponse`].
pub struct BlockResponseView {
    pub blocks: Seq<BlockDataView>,
}

impl View for BlockResponse {
    type V = BlockResponseView;

    open spec fn view(&self) -> BlockResponseView {
        BlockResponseView { blocks: block_views(self.blocks@) }
    }
}

/// An unsigned 32-bit field: absent where the value is zero.
pub open spec fn uint32_part(tag: u32, value: u32) -> Seq<u8> {
    if value == 0 {
        Seq::empty()
    } else {
        varint_field(tag, value as u64)
    }
}

/// A signed 32-bit field: absent where the value is zero.
pub open spec fn int32_part(tag: u32, value: i32) -> Seq<u8> {
    if value == 0 {
        Seq::empty()
    } else {
        varint_field(tag, widened(value))
    }
}

/// A boolean field: absent where the value is false.
pub open spec fn bool_part(tag: u32, value: bool) -> Seq<u8> {
    if value {
        varint_field(tag, 1)
    } else {
        Seq::empty()
    }
}

/// A bytes field: absent where there are no bytes.
pub open spec fn bytes_part(tag: u32, data: Seq<u8>) -> Seq<u8> {
    if data.len() == 0 {
        Seq::empty()
    } else {
        bytes_field(tag, data)
    }
}

/// A repeated bytes field: one field for each item, empty ones too.
pub open spec fn repeated_part(tag: u32, items: Seq<Seq<u8>>) -> Seq<u8>
    decreases items.len(),
{
    if items.len() == 0 {
        Seq::empty()
    } else {
        bytes_field(tag, items[0]) + repeated_part(tag, items.skip(1))
    }
}

/// The start block of a request: present where one is chosen, even with no bytes.
pub open spec fn from_block_part(from_block: Option<FromBlockView>) -> Seq<u8> {
    match from_block {
        None => Seq::empty(),
        Some(FromBlockView::Hash(bytes)) => bytes_field(2, bytes),
        Some(FromBlockView::Number(bytes)) => bytes_field(3, bytes),
    }
}

impl BlockRequestView {
    /// The request in which every field has its default value.
    pub open spec fn empty() -> BlockRequestView {
        BlockRequestView {
            fields: 0,
            from_block: None,
            to_block: Seq::empty(),
            direction: 0,
            max_blocks: 0,
        }
    }

    /// Whether every byte string is short enough for its length to be written.
    pub open spec fn bounded(self) -> bool {
        &&& self.to_block.len() <= u64::MAX
        &&& match self.from_block {
            None => true,
            Some(FromBlockView::Hash(bytes)) => bytes.len() <= u64::MAX,
            Some(FromBlockView::Number(bytes)) => bytes.len() <= u64::MAX,
        }
    }

    /// The bytes that the request is encoded to.
    pub open spec fn encoding(self) -> Seq<u8> {
        uint32_part(1, self.fields) + (from_block_part(self.from_block) + (bytes_part(
            4,
            self.to_block,
        ) + (int32_part(5, self.direction) + uint32_part(6, self.max_blocks))))
    }
}

impl BlockDataView {
    /// The block in which every field has its default value.
    pub open spec fn empty() -> BlockDataView {
        BlockDataView {
            hash: Seq::empty(),
            header: Seq::empty(),
            body: Seq::empty(),
            receipt: Seq::empty(),
            message_queue: Seq::empty(),
            justification: Seq::empty(),
            is_empty_justification: false,
        }
    }

    /// Whether every byte string is short enough for its length to be written.
    pub open spec fn bounded(self) -> bool {
        &&& self.hash.len() <= u64::MAX
        &&& self.header.len() <= u64::MAX
        &&& self.receipt.len() <= u64::MAX
        &&& self.message_queue.len() <= u64::MAX
        &&& self.justification.len() <= u64::MAX
        &&& forall|i: int| 0 <= i < self.body.len() ==> (#[trigger] self.body[i]).len() <= u64::MAX
    }

    /// The bytes that the block is encoded to.
    pub open spec fn encoding(self) -> Seq<u8> {
        bytes_part(1, self.hash) + (bytes_part(2, self.header) + (repeated_part(3, self.body) + (
        bytes_part(4, self.receipt) + (bytes_part(5, self.message_queue) + (bytes_part(
            6,
            self.justification,
        ) + bool_part(7, self.is_empty_justification))))))
    }
}

/// The blocks of a response, each as a length-delimited field with tag 1.
pub open spec fn blocks_encoding(blocks: Seq<BlockDataView>) -> Seq<u8>
    decreases blocks.len(),
{
    if blocks.len() == 0 {
        Seq::empty()
    } else {
        bytes_field(1, blocks[0].encoding()) + blocks_encoding(blocks.skip(1))
    }
}

/// Whether every block is bounded and short enough for its length to be written.
pub open spec fn blocks_bounded(blocks: Seq<BlockDataView>) -> bool {
    forall|i: int|
        0 <= i < blocks.len() ==> (#[trigger] blocks[i]).bounded() && blocks[i].encoding().len()
            <= u64::MAX
}

impl BlockResponseView {
    /// Whether every block is bounded and short enough for its length to be written.
    pub open spec fn bounded(self) -> bool {
        blocks_bounded(self.blocks)
    }

    /// The bytes that the response is encoded to.
    pub open spec fn encoding(self) -> Seq<u8> {
        blocks_encoding(self.blocks)
    }
}

/// What one field does to a request that is being decoded: the request after
/// the field, and the number of payload bytes that the field takes.
pub open spec fn request_field(acc: BlockRequestView, key: Key, s: Seq<u8>) -> Result<
    (BlockRequestView, nat),
    WireError,
> {
    if key.tag == 1 || key.tag == 5 || key.tag == 6 {
        if key.wire_type != WIRE_VARINT {
            Err(WireError::UnexpectedWireType)
        } else {
            match varint_decoding(s) {
                Err(error) => Err(error),
                Ok((value, len)) => Ok(
                    (
                        if key.tag == 1 {
                            BlockRequestView { fields: low_u32(value), ..acc }
                        } else if key.tag == 5 {
                            BlockRequestView { direction: low_i32(value), ..acc }
                        } else {
                            BlockRequestView { max_blocks: low_u32(value), ..acc }
                        },
                        len,
                    ),
                ),
            }
        }
    } else if key.tag == 2 || key.tag == 3 || key.tag == 4 {
        if key.wire_type != WIRE_LEN {
            Err(WireError::UnexpectedWireType)
        } else {
            match bytes_decoding(s) {
                Err(error) => Err(error),
                Ok((data, len)) => Ok(
                    (
                        if key.tag == 2 {
                            BlockRequestView {
                                from_block: Some(FromBlockView::Hash(data)),
                                ..acc
                            }
                        } else if key.tag == 3 {
                            BlockRequestView {
                                from_block: Some(FromBlockView::Number(data)),
                                ..acc
                            }
                        } else {
                            BlockRequestView { to_block: data, ..acc }
                        },
                        len,
                    ),
                ),
            }
        }
    } else {
        match unknown_decoding(key, s) {
            Err(error) => Err(error),
            Ok(len) => Ok((acc, len)),
        }
    }
}

/// The request that `s` decodes to, field by field, starting from `acc`.
pub open spec fn request_decoding_from(s: Seq<u8>, acc: BlockRequestView) -> Result<
    BlockRequestView,
    WireError,
>
    decreases s.len(),
{
    if s.len() == 0 {
        Ok(acc)
    } else {
        match key_decoding(s) {
            Err(error) => Err(error),
            Ok((key, used)) => match request_field(acc, key, s.skip(used as int)) {
                Err(error) => Err(error),
                Ok((next, len)) => if 0 < used <= s.len() && len <= s.len() - used {
                    request_decoding_from(s.skip(used as int).skip(len as int), next)
                } else {
                    Err(WireError::BufferUnderflow)
                },
            },
        }
    }
}

/// The request that `s` decodes to.
pub open spec fn request_decoding(s: Seq<u8>) -> Result<BlockRequestView, WireError> {
    request_decoding_from(s, BlockRequestView::empty())
}

/// What one field does to a block that is being decoded: the block after the
/// field, and the number of payload bytes that the field takes.
pub open spec fn block_field(acc: BlockDataView, key: Key, s: Seq<u8>) -> Result<
    (BlockDataView, nat),
    WireError,
> {
    if key.tag == 7 {
        if key.wire_type != WIRE_VARINT {
            Err(WireError::UnexpectedWireType)
        } else {
            match varint_decoding(s) {
                Err(error) => Err(error),
                Ok((value, len)) => Ok(
                    (BlockDataView { is_empty_justification: value != 0, ..acc }, len),
                ),
            }
        }
    } else if 1 <= key.tag <= 6 {
        if key.wire_type != WIRE_LEN {
            Err(WireError::UnexpectedWireType)
        } else {
            match bytes_decoding(s) {
                Err(error) => Err(error),
                Ok((data, len)) => Ok(
                    (
                        if key.tag == 1 {
                            BlockDataView { hash: data, ..acc }
                        } else if key.tag == 2 {
                            BlockDataView { header: data, ..acc }
                        } else if key.tag == 3 {
                            BlockDataView { body: acc.body.push(data), ..acc }
                        } else if key.tag == 4 {
                            BlockDataView { receipt: data, ..acc }
                        } else if key.tag == 5 {
                            BlockDataView { message_queue: data, ..acc }
                        } else {
                            BlockDataView { justification: data, ..acc }
                        },
                        len,
                    ),
                ),
            }
        }
    } else {
        match unknown_decoding(key, s) {
            Err(error) => Err(error),
            Ok(len) => Ok((acc, len)),
        }
    }
}

/// The block that `s` decodes to, field by field, starting from `acc`.
pub open spec fn block_decoding_from(s: Seq<u8>, acc: BlockDataView) -> Result<
    BlockDataView,
    WireError,
>
    decreases s.len(),
{
    if s.len() == 0 {
        Ok(acc)
    } else {
        match key_decoding(s) {
            Err(error) => Err(error),
            Ok((key, used)) => match block_field(acc, key, s.skip(used as int)) {
                Err(error) => Err(error),
                Ok((next, len)) => if 0 < used <= s.len() && len <= s.len() - used {
                    block_decoding_from(s.skip(used as int).skip(len as int), next)
                } else {
                    Err(WireError::BufferUnderflow)
                },
            },
        }
    }
}

/// The block that `s` decodes to.
pub open spec fn block_decoding(s: Seq<u8>) -> Result<BlockDataView, WireError> {
    block_decoding_from(s, BlockDataView::empty())
}

/// What one field does to a response that is being decoded: the blocks after
/// the field, and the number of payload bytes that the field takes.
pub open spec fn response_field(acc: Seq<BlockDataView>, key: Key, s: Seq<u8>) -> Result<
    (Seq<BlockDataView>, nat),
    WireError,
> {
    if key.tag == 1 {
        if key.wire_type != WIRE_LEN {
            Err(WireError::UnexpectedWireType)
        } else {
            match bytes_decoding(s) {
                Err(error) => Err(error),
                Ok((data, len)) => match block_decoding(data) {
                    Err(error) => Err(error),
                    Ok(block) => Ok((acc.push(block), len)),
                },
            }
        }
    } else {
        match unknown_decoding(key, s) {
            Err(error) => Err(error),
            Ok(len) => Ok((acc, len)),
        }
    }
}

/// The blocks that `s` decodes to, field by field, starting from `acc`.
pub open spec fn response_decoding_from(s: Seq<u8>, acc: Seq<BlockDataView>) -> Result<
    Seq<BlockDataView>,
    WireError,
>
    decreases s.len(),
{
    if s.len() == 0 {
        Ok(acc)
    } else {
        match key_decoding(s) {
            Err(error) => Err(error),
            Ok((key, used)) => match response_field(acc, key, s.skip(used as int)) {
                Err(error) => Err(error),
                Ok((next, len)) => if 0 < used <= s.len() && len <= s.len() - used {
                    response_decoding_from(s.skip(used as int).skip(len as int), next)
                } else {
                    Err(WireError::BufferUnderflow)
                },
            },
        }
    }
}

/// The response that `s` decodes to.
pub open spec fn response_decoding(s: Seq<u8>) -> Result<BlockResponseView, WireError> {
    match response_decoding_from(s, Seq::empty()) {
        Ok(blocks) => Ok(BlockResponseView { blocks }),
        Err(error) => Err(error),
    }
}

/// Widens a signed 32-bit number to 64 bits in two's complement.
fn widen(value: i32) -> (r: u64)
    ensures
        r == widened(value),
{
    if value >= 0 {
        value as u64
    } else {
        let magnitude: u64 = (-(value as i64)) as u64;
        u64::MAX - (magnitude - 1)
    }
}

/// The low 32 bits of a varint as an unsigned number.
fn cut_u32(value: u64) -> (r: u32)
    ensures
        r == low_u32(value),
{
    (value % 0x1_0000_0000) as u32
}

/// The low 32 bits of a varint as a signed number.
fn cut_i32(value: u64) -> (r: i32)
    ensures
        r == low_i32(value),
{
    let low: u64 = value % 0x1_0000_0000;
    if low < 0x8000_0000 {
        low as i32
    } else {
        (low as i64 - 0x1_0000_0000) as i32
    }
}

fn put_uint32_part(tag: u32, value: u32, buf: &mut Vec<u8>)
    ensures
        final(buf)@ == old(buf)@ + uint32_part(tag, value),
{
    if value != 0 {
        put_varint_field(tag, value as u64, buf);
    }
    assert(final(buf)@ =~= old(buf)@ + uint32_part(tag, value));
}

fn put_int32_part(tag: u32, value: i32, buf: &mut Vec<u8>)
    ensures
        final(buf)@ == old(buf)@ + int32_part(tag, value),
{
    if value != 0 {
        put_varint_field(tag, widen(value), buf);
    }
    assert(final(buf)@ =~= old(buf)@ + int32_part(tag, value));
}

fn put_bool_part(tag: u32, value: bool, buf: &mut Vec<u8>)
    ensures
        final(buf)@ == old(buf)@ + bool_part(tag, value),
{
    if value {
        put_varint_field(tag, 1, buf);
    }
    assert(final(buf)@ =~= old(buf)@ + bool_part(tag, value));
}

fn put_bytes_part(tag: u32, data: &[u8], buf: &mut Vec<u8>)
    ensures
        final(buf)@ == old(buf)@ + bytes_part(tag, data@),
{
    if data.len() != 0 {
        put_bytes_field(tag, data, buf);
    }
    assert(final(buf)@ =~= old(buf)@ + bytes_part(tag, data@));
}

/// A repeated field written item by item is the field of the items so far
/// followed by the field of the next item.
pub proof fn lemma_repeated_push(tag: u32, items: Seq<Seq<u8>>, item: Seq<u8>)
    ensures
        repeated_part(tag, items.push(item)) == repeated_part(tag, items) + bytes_field(tag, item),
    decreases items.len(),
{
    if items.len() == 0 {
        assert(items.push(item).skip(1) =~= Seq::<Seq<u8>>::empty());
        assert(repeated_part(tag, items.push(item).skip(1)) =~= Seq::<u8>::empty());
        assert(items.push(item)[0] == item);
        assert(repeated_part(tag, items.push(item)) =~= bytes_field(tag, item));
        assert(repeated_part(tag, items) + bytes_field(tag, item) =~= bytes_field(tag, item));
    } else {
        assert(items.push(item).skip(1) =~= items.skip(1).push(item));
        lemma_repeated_push(tag, items.skip(1), item);
        assert(repeated_part(tag, items.push(item)) =~= repeated_part(tag, items) + bytes_field(
            tag,
            item,
        ));
    }
}

/// The blocks of a response written one by one are the encoding of the
/// blocks so far followed by the field of the next block.
pub proof fn lemma_blocks_push(blocks: Seq<BlockDataView>, block: BlockDataView)
    ensures
        blocks_encoding(blocks.push(block)) == blocks_encoding(blocks) + bytes_field(
            1,
            block.encoding(),
        ),
    decreases blocks.len(),
{
    if blocks.len() == 0 {
        assert(blocks.push(block).skip(1) =~= Seq::<BlockDataView>::empty());
        assert(blocks_encoding(blocks.push(block).skip(1)) =~= Seq::<u8>::empty());
        assert(blocks.push(block)[0] == block);
        assert(blocks_encoding(blocks.push(block)) =~= bytes_field(1, block.encoding()));
        assert(blocks_encoding(blocks) + bytes_field(1, block.encoding()) =~= bytes_field(
            1,
            block.encoding(),
        ));
    } else {
        assert(blocks.push(block).skip(1) =~= blocks.skip(1).push(block));
        lemma_blocks_push(blocks.skip(1), block);
        assert(blocks_encoding(blocks.push(block)) =~= blocks_encoding(blocks) + bytes_field(
            1,
            block.encoding(),
        ));
    }
}

fn put_repeated_part(tag: u32, items: &Vec<Vec<u8>>, buf: &mut Vec<u8>)
    ensures
        final(buf)@ == old(buf)@ + repeated_part(tag, seqs_of(items@)),
{
    let mut i: usize = 0;
    assert(seqs_of(items@).take(0) =~= Seq::<Seq<u8>>::empty());
    assert(buf@ =~= old(buf)@ + repeated_part(tag, seqs_of(items@).take(0)));
    while i < items.len()
        invariant
            i <= items@.len(),
            buf@ == old(buf)@ + repeated_part(tag, seqs_of(items@).take(i as int)),
        decreases items@.len() - i,
    {
        proof {
            lemma_repeated_push(tag, seqs_of(items@).take(i as int), items@[i as int]@);
            assert(seqs_of(items@).take(i as int).push(items@[i as int]@) =~= seqs_of(
                items@,
            ).take(i as int + 1));
        }
        put_bytes_field(tag, items[i].as_slice(), buf);
        assert(buf@ =~= old(buf)@ + repeated_part(tag, seqs_of(items@).take(i as int + 1)));
        i += 1;
    }
    assert(seqs_of(items@).take(items@.len() as int) =~= seqs_of(items@));
}

impl Default for BlockRequest {
    fn default() -> (r: BlockRequest)
        ensures
            r@ == BlockRequestView::empty(),
    {
        BlockRequest {
            fields: 0,
            from_block: None,
            to_block: Vec::new(),
            direction: 0,
            max_blocks: 0,
        }
    }
}

impl Default for BlockData {
    fn default() -> (r: BlockData)
        ensures
            r@ == BlockDataView::empty(),
    {
        let r = BlockData {
            hash: Vec::new(),
            header: Vec::new(),
            body: Vec::new(),
            receipt: Vec::new(),
            message_queue: Vec::new(),
            justification: Vec::new(),
            is_empty_justification: false,
        };
        assert(r@.body =~= Seq::<Seq<u8>>::empty());
        r
    }
}

impl Default for BlockResponse {
    fn default() -> (r: BlockResponse)
        ensures
            r@.blocks == Seq::<BlockDataView>::empty(),
    {
        let r = BlockResponse { blocks: Vec::new() };
        assert(r@.blocks =~= Seq::<BlockDataView>::empty());
        r
    }
}

impl BlockRequest {
    /// Appends the encoding of the request to `buf`.
    pub fn encode(&self, buf: &mut Vec<u8>)
        ensures
            final(buf)@ == old(buf)@ + self@.encoding(),
    {
        put_uint32_part(1, self.fields, buf);
        match &self.from_block {
            None => {},
            Some(FromBlock::Hash(bytes)) => {
                put_bytes_field(2, bytes.as_slice(), buf);
            },
            Some(FromBlock::Number(bytes)) => {
                put_bytes_field(3, bytes.as_slice(), buf);
            },
        }
        assert(buf@ =~= old(buf)@ + uint32_part(1, self@.fields) + from_block_part(
            self@.from_block,
        ));
        put_bytes_part(4, self.to_block.as_slice(), buf);
        put_int32_part(5, self.direction, buf);
        put_uint32_part(6, self.max_blocks, buf);
        assert(final(buf)@ =~= old(buf)@ + self@.encoding());
    }

    /// The encoding of the request.
    pub fn encode_to_vec(&self) -> (r: Vec<u8>)
        ensures
            r@ == self@.encoding(),
    {
        let mut buf: Vec<u8> = Vec::new();
        self.encode(&mut buf);
        assert(buf@ =~= self@.encoding());
        buf
    }

    /// The number of bytes that the encoding of the request takes.
    pub fn encoded_len(&self) -> (r: usize)
        ensures
            r == self@.encoding().len(),
    {
        self.encode_to_vec().len()
    }

    /// Takes one field into the request: its payload starts `payload`.
    fn merge_field(&mut self, key: Key, payload: &[u8]) -> (r: Result<usize, WireError>)
        ensures
            match r {
                Ok(len) => request_field(old(self)@, key, payload@) == Ok::<
                    (BlockRequestView, nat),
                    WireError,
                >((final(self)@, len as nat)) && len <= payload@.len(),
                Err(error) => request_field(old(self)@, key, payload@) == Err::<
                    (BlockRequestView, nat),
                    WireError,
                >(error),
            },
    {
        if key.tag == 1 || key.tag == 5 || key.tag == 6 {
            if key.wire_type != WIRE_VARINT {
                return Err(WireError::UnexpectedWireType);
            }
            match take_varint(payload) {
                Err(error) => Err(error),
                Ok((value, len)) => {
                    if key.tag == 1 {
                        self.fields = cut_u32(value);
                    } else if key.tag == 5 {
                        self.direction = cut_i32(value);
                    } else {
                        self.max_blocks = cut_u32(value);
                    }
                    Ok(len)
                },
            }
        } else if key.tag == 2 || key.tag == 3 || key.tag == 4 {
            if key.wire_type != WIRE_LEN {
                return Err(WireError::UnexpectedWireType);
            }
            match take_bytes(payload) {
                Err(error) => Err(error),
                Ok((data, len)) => {
                    if key.tag == 2 {
                        self.from_block = Some(FromBlock::Hash(copy_bytes(data)));
                    } else if key.tag == 3 {
                        self.from_block = Some(FromBlock::Number(copy_bytes(data)));
                    } else {
                        self.to_block = copy_bytes(data);
                    }
                    Ok(len)
                },
            }
        } else {
            skip_unknown(key, payload)
        }
    }

    /// Decodes a request from the whole of `buf`.
    pub fn decode(buf: &[u8]) -> (r: Result<BlockRequest, WireError>)
        ensures
            match r {
                Ok(request) => request_decoding(buf@) == Ok::<BlockRequestView, WireError>(
                    request@,
                ),
                Err(error) => request_decoding(buf@) == Err::<BlockRequestView, WireError>(error),
            },
    {
        let mut message = BlockRequest::default();
        let mut rest: &[u8] = buf;
        while rest.len() > 0
            invariant
                request_decoding_from(rest@, message@) == request_decoding(buf@),
            decreases rest@.len(),
        {
            let (key, used) = match take_key(rest) {
                Ok(found) => found,
                Err(error) => {
                    return Err(error);
                },
            };
            let payload = slice_subrange(rest, used, rest.len());
            assert(payload@ == rest@.skip(used as int));
            let len: usize = match message.merge_field(key, payload) {
                Ok(len) => len,
                Err(error) => {
                    return Err(error);
                },
            };
            rest = slice_subrange(payload, len, payload.len());
            assert(rest@ == payload@.skip(len as int));
        }
        Ok(message)
    }
}

impl BlockData {
    /// Appends the encoding of the block to `buf`.
    pub fn encode(&self, buf: &mut Vec<u8>)
        ensures
            final(buf)@ == old(buf)@ + self@.encoding(),
    {
        let ghost tail7 = bool_part(7, self@.is_empty_justification);
        let ghost tail6 = bytes_part(6, self@.justification) + tail7;
        let ghost tail5 = bytes_part(5, self@.message_queue) + tail6;
        let ghost tail4 = bytes_part(4, self@.receipt) + tail5;
        let ghost tail3 = repeated_part(3, self@.body) + tail4;
        let ghost tail2 = bytes_part(2, self@.header) + tail3;
        put_bytes_part(1, self.hash.as_slice(), buf);
        let ghost sofar1 = buf@;
        put_bytes_part(2, self.header.as_slice(), buf);
        let ghost sofar2 = buf@;
        put_repeated_part(3, &self.body, buf);
        let ghost sofar3 = buf@;
        put_bytes_part(4, self.receipt.as_slice(), buf);
        let ghost sofar4 = buf@;
        put_bytes_part(5, self.message_queue.as_slice(), buf);
        let ghost sofar5 = buf@;
        put_bytes_part(6, self.justification.as_slice(), buf);
        put_bool_part(7, self.is_empty_justification, buf);
        assert(buf@ =~= sofar5 + tail6);
        assert(sofar5 + tail6 =~= sofar4 + tail5);
        assert(sofar4 + tail5 =~= sofar3 + tail4);
        assert(sofar3 + tail4 =~= sofar2 + tail3);
        assert(sofar2 + tail3 =~= sofar1 + tail2);
        assert(sofar1 + tail2 =~= old(buf)@ + self@.encoding());
    }

    /// The encoding of the block.
    pub fn encode_to_vec(&self) -> (r: Vec<u8>)
        ensures
            r@ == self@.encoding(),
    {
        let mut buf: Vec<u8> = Vec::new();
        self.encode(&mut buf);
        assert(buf@ =~= self@.encoding());
        buf
    }

    /// Takes one field into the block: its payload starts `payload`.
    fn merge_field(&mut self, key: Key, payload: &[u8]) -> (r: Result<usize, WireError>)
        ensures
            match r {
                Ok(len) => block_field(old(self)@, key, payload@) == Ok::<
                    (BlockDataView, nat),
                    WireError,
                >((final(self)@, len as nat)) && len <= payload@.len(),
                Err(error) => block_field(old(self)@, key, payload@) == Err::<
                    (BlockDataView, nat),
                    WireError,
                >(error),
            },
    {
        if key.tag == 7 {
            if key.wire_type != WIRE_VARINT {
                return Err(WireError::UnexpectedWireType);
            }
            match take_varint(payload) {
                Err(error) => Err(error),
                Ok((value, len)) => {
                    self.is_empty_justification = value != 0;
                    Ok(len)
                },
            }
        } else if 1 <= key.tag && key.tag <= 6 {
            if key.wire_type != WIRE_LEN {
                return Err(WireError::UnexpectedWireType);
            }
            match take_bytes(payload) {
                Err(error) => Err(error),
                Ok((data, len)) => {
                    if key.tag == 1 {
                        self.hash = copy_bytes(data);
                    } else if key.tag == 2 {
                        self.header = copy_bytes(data);
                    } else if key.tag == 3 {
                        self.body.push(copy_bytes(data));
                        assert(seqs_of(self.body@) =~= seqs_of(old(self).body@).push(data@));
                    } else if key.tag == 4 {
                        self.receipt = copy_bytes(data);
                    } else if key.tag == 5 {
                        self.message_queue = copy_bytes(data);
                    } else {
                        self.justification = copy_bytes(data);
                    }
                    Ok(len)
                },
            }
        } else {
            skip_unknown(key, payload)
        }
    }

    /// Decodes a block from the whole of `buf`.
    pub fn decode(buf: &[u8]) -> (r: Result<BlockData, WireError>)
        ensures
            match r {
                Ok(block) => block_decoding(buf@) == Ok::<BlockDataView, WireError>(block@),
                Err(error) => block_decoding(buf@) == Err::<BlockDataView, WireError>(error),
            },
    {
        let mut message = BlockData::default();
        let mut rest: &[u8] = buf;
        while rest.len() > 0
            invariant
                block_decoding_from(rest@, message@) == block_decoding(buf@),
            decreases rest@.len(),
        {
            let (key, used) = match take_key(rest) {
                Ok(found) => found,
                Err(error) => {
                    return Err(error);
                },
            };
            let payload = slice_subrange(rest, used, rest.len());
            assert(payload@ == rest@.skip(used as int));
            let len: usize = match message.merge_field(key, payload) {
                Ok(len) => len,
                Err(error) => {
                    return Err(error);
                },
            };
            rest = slice_subrange(payload, len, payload.len());
            assert(rest@ == payload@.skip(len as int));
        }
        Ok(message)
    }
}

impl BlockResponse {
    /// Appends the encoding of the response to `buf`.
    pub fn encode(&self, buf: &mut Vec<u8>)
        ensures
            final(buf)@ == old(buf)@ + self@.encoding(),
    {
        let mut i: usize = 0;
        assert(self@.blocks.take(0) =~= Seq::<BlockDataView>::empty());
        assert(buf@ =~= old(buf)@ + blocks_encoding(self@.blocks.take(0)));
        while i < self.blocks.len()
            invariant
                i <= self.blocks@.len(),
                buf@ == old(buf)@ + blocks_encoding(self@.blocks.take(i as int)),
            decreases self.blocks@.len() - i,
        {
            proof {
                lemma_blocks_push(self@.blocks.take(i as int), self.blocks@[i as int]@);
                assert(self@.blocks.take(i as int).push(self.blocks@[i as int]@)
                    =~= self@.blocks.take(i as int + 1));
            }
            let block = self.blocks[i].encode_to_vec();
            put_bytes_field(1, block.as_slice(), buf);
            assert(buf@ =~= old(buf)@ + blocks_encoding(self@.blocks.take(i as int + 1)));
            i += 1;
        }
        assert(self@.blocks.take(self.blocks@.len() as int) =~= self@.blocks);
    }

    /// The encoding of the response.
    pub fn encode_to_vec(&self) -> (r: Vec<u8>)
        ensures
            r@ == self@.encoding(),
    {
        let mut buf: Vec<u8> = Vec::new();
        self.encode(&mut buf);
        assert(buf@ =~= self@.encoding());
        buf
    }

    /// Takes one field into the response: its payload starts `payload`.
    fn merge_field(&mut self, key: Key, payload: &[u8]) -> (r: Result<usize, WireError>)
        ensures
            match r {
                Ok(len) => response_field(old(self)@.blocks, key, payload@) == Ok::<
                    (Seq<BlockDataView>, nat),
                    WireError,
                >((final(self)@.blocks, len as nat)) && len <= payload@.len(),
                Err(error) => response_field(old(self)@.blocks, key, payload@) == Err::<
                    (Seq<BlockDataView>, nat),
                    WireError,
                >(error),
            },
    {
        if key.tag == 1 {
            if key.wire_type != WIRE_LEN {
                return Err(WireError::UnexpectedWireType);
            }
            match take_bytes(payload) {
                Err(error) => Err(error),
                Ok((data, len)) => match BlockData::decode(data) {
                    Err(error) => Err(error),
                    Ok(block) => {
                        let ghost content = block@;
                        self.blocks.push(block);
                        assert(self@.blocks =~= old(self)@.blocks.push(content));
                        Ok(len)
                    },
                },
            }
        } else {
            skip_unknown(key, payload)
        }
    }

    /// Decodes a response from the whole of `buf`.
    pub fn decode(buf: &[u8]) -> (r: Result<BlockResponse, WireError>)
        ensures
            match r {
                Ok(response) => response_decoding(buf@) == Ok::<BlockResponseView, WireError>(
                    response@,
                ),
                Err(error) => response_decoding(buf@) == Err::<BlockResponseView, WireError>(
                    error,
                ),
            },
    {
        let mut message = BlockResponse::default();
        let mut rest: &[u8] = buf;
        while rest.len() > 0
            invariant
                response_decoding_from(rest@, message@.blocks) == response_decoding_from(
                    buf@,
                    Seq::empty(),
                ),
            decreases rest@.len(),
        {
            let (key, used) = match take_key(rest) {
                Ok(found) => found,
                Err(error) => {
                    return Err(error);
                },
            };
            let payload = slice_subrange(rest, used, rest.len());
            assert(payload@ == rest@.skip(used as int));
            let len: usize = match message.merge_field(key, payload) {
                Ok(len) => len,
                Err(error) => {
                    return Err(error);
                },
            };
            rest = slice_subrange(payload, len, payload.len());
            assert(rest@ == payload@.skip(len as int));
        }
        Ok(message)
    }
}

/// Decoding a request steps over a varint field that the encoder wrote and
/// takes its value into the field's place.
proof fn lemma_request_varint_step(acc: BlockRequestView, tag: u32, value: u64, rest: Seq<u8>)
    requires
        tag == 1 || tag == 5 || tag == 6,
    ensures
        request_decoding_from(varint_field(tag, value) + rest, acc) == request_decoding_from(
            rest,
            if tag == 1 {
                BlockRequestView { fields: low_u32(value), ..acc }
            } else if tag == 5 {
                BlockRequestView { direction: low_i32(value), ..acc }
            } else {
                BlockRequestView { max_blocks: low_u32(value), ..acc }
            },
        ),
{
    let k = crate::wire::key_encoding(tag, WIRE_VARINT);
    let p = varint::encoded(value);
    let s = varint_field(tag, value) + rest;
    assert(s =~= k + (p + rest));
    lemma_key_round_trip(tag, WIRE_VARINT, p + rest);
    assert(s.skip(k.len() as int) =~= p + rest);
    lemma_varint_round_trip(value, rest);
    assert(s.skip(k.len() as int).skip(p.len() as int) =~= rest);
}

/// Decoding a request steps over a bytes field that the encoder wrote and
/// takes its bytes into the field's place.
proof fn lemma_request_bytes_step(acc: BlockRequestView, tag: u32, data: Seq<u8>, rest: Seq<u8>)
    requires
        tag == 2 || tag == 3 || tag == 4,
        data.len() <= u64::MAX,
    ensures
        request_decoding_from(bytes_field(tag, data) + rest, acc) == request_decoding_from(
            rest,
            if tag == 2 {
                BlockRequestView { from_block: Some(FromBlockView::Hash(data)), ..acc }
            } else if tag == 3 {
                BlockRequestView { from_block: Some(FromBlockView::Number(data)), ..acc }
            } else {
                BlockRequestView { to_block: data, ..acc }
            },
        ),
{
    let k = crate::wire::key_encoding(tag, WIRE_LEN);
    let p = varint::encoded(data.len() as u64) + data;
    let s = bytes_field(tag, data) + rest;
    assert(s =~= k + (p + rest));
    lemma_key_round_trip(tag, WIRE_LEN, p + rest);
    assert(s.skip(k.len() as int) =~= p + rest);
    lemma_bytes_round_trip(data, rest);
    assert(p + rest =~= varint::encoded(data.len() as u64) + data + rest);
    assert(s.skip(k.len() as int).skip(p.len() as int) =~= rest);
}

/// A request that was encoded decodes to itself.
pub proof fn lemma_request_round_trip(request: BlockRequestView)
    requires
        request.bounded(),
    ensures
        request_decoding(request.encoding()) == Ok::<BlockRequestView, WireError>(request),
{
    let tail5 = uint32_part(6, request.max_blocks);
    let tail4 = int32_part(5, request.direction) + tail5;
    let tail3 = bytes_part(4, request.to_block) + tail4;
    let tail2 = from_block_part(request.from_block) + tail3;
    let acc0 = BlockRequestView::empty();
    let acc1 = BlockRequestView { fields: request.fields, ..acc0 };
    let acc2 = BlockRequestView { from_block: request.from_block, ..acc1 };
    let acc3 = BlockRequestView { to_block: request.to_block, ..acc2 };
    let acc4 = BlockRequestView { direction: request.direction, ..acc3 };
    assert(request_decoding_from(request.encoding(), acc0) == request_decoding_from(tail2, acc1)) by {
        if request.fields == 0 {
            assert(request.encoding() =~= tail2);
        } else {
            lemma_request_varint_step(acc0, 1, request.fields as u64, tail2);
        }
    }
    assert(request_decoding_from(tail2, acc1) == request_decoding_from(tail3, acc2)) by {
        match request.from_block {
            None => {
                assert(tail2 =~= tail3);
            },
            Some(FromBlockView::Hash(bytes)) => {
                lemma_request_bytes_step(acc1, 2, bytes, tail3);
            },
            Some(FromBlockView::Number(bytes)) => {
                lemma_request_bytes_step(acc1, 3, bytes, tail3);
            },
        }
    }
    assert(request_decoding_from(tail3, acc2) == request_decoding_from(tail4, acc3)) by {
        if request.to_block.len() == 0 {
            assert(tail3 =~= tail4);
            assert(request.to_block =~= Seq::<u8>::empty());
        } else {
            lemma_request_bytes_step(acc2, 4, request.to_block, tail4);
        }
    }
    assert(request_decoding_from(tail4, acc3) == request_decoding_from(tail5, acc4)) by {
        if request.direction == 0 {
            assert(tail4 =~= tail5);
        } else {
            lemma_request_varint_step(acc3, 5, widened(request.direction), tail5);
        }
    }
    assert(request_decoding_from(tail5, acc4) == Ok::<BlockRequestView, WireError>(request)) by {
        if request.max_blocks == 0 {
            assert(tail5 =~= Seq::<u8>::empty());
        } else {
            lemma_request_varint_step(acc4, 6, request.max_blocks as u64, Seq::empty());
            assert(tail5 =~= varint_field(6, request.max_blocks as u64) + Seq::<u8>::empty());
        }
    }
}

/// Decoding a block steps over a bytes field that the encoder wrote and takes
/// its bytes into the field's place; a body item joins the end of the body.
proof fn lemma_block_bytes_step(acc: BlockDataView, tag: u32, data: Seq<u8>, rest: Seq<u8>)
    requires
        1 <= tag <= 6,
        data.len() <= u64::MAX,
    ensures
        block_decoding_from(bytes_field(tag, data) + rest, acc) == block_decoding_from(
            rest,
            if tag == 1 {
                BlockDataView { hash: data, ..acc }
            } else if tag == 2 {
                BlockDataView { header: data, ..acc }
            } else if tag == 3 {
                BlockDataView { body: acc.body.push(data), ..acc }
            } else if tag == 4 {
                BlockDataView { receipt: data, ..acc }
            } else if tag == 5 {
                BlockDataView { message_queue: data, ..acc }
            } else {
                BlockDataView { justification: data, ..acc }
            },
        ),
{
    let k = crate::wire::key_encoding(tag, WIRE_LEN);
    let p = varint::encoded(data.len() as u64) + data;
    let s = bytes_field(tag, data) + rest;
    assert(s =~= k + (p + rest));
    lemma_key_round_trip(tag, WIRE_LEN, p + rest);
    assert(s.skip(k.len() as int) =~= p + rest);
    lemma_bytes_round_trip(data, rest);
    assert(p + rest =~= varint::encoded(data.len() as u64) + data + rest);
    assert(s.skip(k.len() as int).skip(p.len() as int) =~= rest);
}

/// Decoding a block steps over the body items that the encoder wrote and
/// takes them, in their order, to the end of the body.
proof fn lemma_block_body_steps(acc: BlockDataView, items: Seq<Seq<u8>>, rest: Seq<u8>)
    requires
        forall|i: int| 0 <= i < items.len() ==> (#[trigger] items[i]).len() <= u64::MAX,
    ensures
        block_decoding_from(repeated_part(3, items) + rest, acc) == block_decoding_from(
            rest,
            BlockDataView { body: acc.body + items, ..acc },
        ),
    decreases items.len(),
{
    if items.len() == 0 {
        assert(repeated_part(3, items) + rest =~= rest);
        assert(acc.body + items =~= acc.body);
    } else {
        let tail = items.skip(1);
        let next = BlockDataView { body: acc.body.push(items[0]), ..acc };
        assert(repeated_part(3, items) + rest =~= bytes_field(3, items[0]) + (repeated_part(
            3,
            tail,
        ) + rest));
        lemma_block_bytes_step(acc, 3, items[0], repeated_part(3, tail) + rest);
        assert forall|i: int| 0 <= i < tail.len() implies (#[trigger] tail[i]).len()
            <= u64::MAX by {
            assert(tail[i] == items[i + 1]);
        }
        lemma_block_body_steps(next, tail, rest);
        assert(next.body + tail =~= acc.body + items);
    }
}

/// A block that was encoded decodes to itself.
pub proof fn lemma_block_round_trip(block: BlockDataView)
    requires
        block.bounded(),
    ensures
        block_decoding(block.encoding()) == Ok::<BlockDataView, WireError>(block),
{
    let tail7 = bool_part(7, block.is_empty_justification);
    let tail6 = bytes_part(6, block.justification) + tail7;
    let tail5 = bytes_part(5, block.message_queue) + tail6;
    let tail4 = bytes_part(4, block.receipt) + tail5;
    let tail3 = repeated_part(3, block.body) + tail4;
    let tail2 = bytes_part(2, block.header) + tail3;
    let acc0 = BlockDataView::empty();
    let acc1 = BlockDataView { hash: block.hash, ..acc0 };
    let acc2 = BlockDataView { header: block.header, ..acc1 };
    let acc3 = BlockDataView { body: block.body, ..acc2 };
    let acc4 = BlockDataView { receipt: block.receipt, ..acc3 };
    let acc5 = BlockDataView { message_queue: block.message_queue, ..acc4 };
    let acc6 = BlockDataView { justification: block.justification, ..acc5 };
    assert(block_decoding_from(block.encoding(), acc0) == block_decoding_from(tail2, acc1)) by {
        if block.hash.len() == 0 {
            assert(block.encoding() =~= tail2);
            assert(block.hash =~= Seq::<u8>::empty());
        } else {
            lemma_block_bytes_step(acc0, 1, block.hash, tail2);
        }
    }
    assert(block_decoding_from(tail2, acc1) == block_decoding_from(tail3, acc2)) by {
        if block.header.len() == 0 {
            assert(tail2 =~= tail3);
            assert(block.header =~= Seq::<u8>::empty());
        } else {
            lemma_block_bytes_step(acc1, 2, block.header, tail3);
        }
    }
    assert(block_decoding_from(tail3, acc2) == block_decoding_from(tail4, acc3)) by {
        lemma_block_body_steps(acc2, block.body, tail4);
        assert(acc2.body + block.body =~= block.body);
    }
    assert(block_decoding_from(tail4, acc3) == block_decoding_from(tail5, acc4)) by {
        if block.receipt.len() == 0 {
            assert(tail4 =~= tail5);
            assert(block.receipt =~= Seq::<u8>::empty());
        } else {
            lemma_block_bytes_step(acc3, 4, block.receipt, tail5);
        }
    }
    assert(block_decoding_from(tail5, acc4) == block_decoding_from(tail6, acc5)) by {
        if block.message_queue.len() == 0 {
            assert(tail5 =~= tail6);
            assert(block.message_queue =~= Seq::<u8>::empty());
        } else {
            lemma_block_bytes_step(acc4, 5, block.message_queue, tail6);
        }
    }
    assert(block_decoding_from(tail6, acc5) == block_decoding_from(tail7, acc6)) by {
        if block.justification.len() == 0 {
            assert(tail6 =~= tail7);
            assert(block.justification =~= Seq::<u8>::empty());
        } else {
            lemma_block_bytes_step(acc5, 6, block.justification, tail7);
        }
    }
    assert(block_decoding_from(tail7, acc6) == Ok::<BlockDataView, WireError>(block)) by {
        if block.is_empty_justification {
            let k = crate::wire::key_encoding(7, WIRE_VARINT);
            let p = varint::encoded(1);
            assert(tail7 =~= k + (p + Seq::<u8>::empty()));
            lemma_key_round_trip(7, WIRE_VARINT, p + Seq::<u8>::empty());
            assert(tail7.skip(k.len() as int) =~= p + Seq::<u8>::empty());
            lemma_varint_round_trip(1, Seq::empty());
            assert(tail7.skip(k.len() as int).skip(p.len() as int) =~= Seq::<u8>::empty());
            let acc7 = BlockDataView { is_empty_justification: true, ..acc6 };
            assert(block_decoding_from(Seq::<u8>::empty(), acc7) == Ok::<BlockDataView, WireError>(
                acc7,
            ));
        } else {
            assert(tail7 =~= Seq::<u8>::empty());
        }
    }
}

/// Decoding a response steps over a block that the encoder wrote and takes
/// it to the end of the blocks.
proof fn lemma_response_block_step(acc: Seq<BlockDataView>, block: BlockDataView, rest: Seq<u8>)
    requires
        block.bounded(),
        block.encoding().len() <= u64::MAX,
    ensures
        response_decoding_from(bytes_field(1, block.encoding()) + rest, acc)
            == response_decoding_from(rest, acc.push(block)),
{
    let data = block.encoding();
    let k = crate::wire::key_encoding(1, WIRE_LEN);
    let p = varint::encoded(data.len() as u64) + data;
    let s = bytes_field(1, data) + rest;
    assert(s =~= k + (p + rest));
    lemma_key_round_trip(1, WIRE_LEN, p + rest);
    assert(s.skip(k.len() as int) =~= p + rest);
    lemma_bytes_round_trip(data, rest);
    assert(p + rest =~= varint::encoded(data.len() as u64) + data + rest);
    assert(s.skip(k.len() as int).skip(p.len() as int) =~= rest);
    lemma_block_round_trip(block);
}

/// Decoding a response takes the blocks that the encoder wrote, in their
/// order, to the end of the blocks.
proof fn lemma_response_steps(acc: Seq<BlockDataView>, blocks: Seq<BlockDataView>)
    requires
        blocks_bounded(blocks),
    ensures
        response_decoding_from(blocks_encoding(blocks), acc) == Ok::<
            Seq<BlockDataView>,
            WireError,
        >(acc + blocks),
    decreases blocks.len(),
{
    if blocks.len() == 0 {
        assert(acc + blocks =~= acc);
    } else {
        let tail = blocks.skip(1);
        assert(blocks[0].bounded() && blocks[0].encoding().len() <= u64::MAX);
        lemma_response_block_step(acc, blocks[0], blocks_encoding(tail));
        assert forall|i: int| 0 <= i < tail.len() implies (#[trigger] tail[i]).bounded()
            && tail[i].encoding().len() <= u64::MAX by {
            assert(tail[i] == blocks[i + 1]);
        }
        lemma_response_steps(acc.push(blocks[0]), tail);
        assert(acc.push(blocks[0]) + tail =~= acc + blocks);
    }
}

/// A response that was encoded decodes to itself.
pub proof fn lemma_response_round_trip(response: BlockResponseView)
    requires
        response.bounded(),
    ensures
        response_decoding(response.encoding()) == Ok::<BlockResponseView, WireError>(response),
{
    lemma_response_steps(Seq::empty(), response.blocks);
    assert(Seq::<BlockDataView>::empty() + response.blocks =~= response.blocks);
}

} // verus!
