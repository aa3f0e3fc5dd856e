//! Answering a block request: a bounded walk along the local chain.
//!
//! The walk starts at the block that the request names and takes one header
//! after the other from the block store, up to the smaller of the number of
//! blocks that the request asks for and the number that the node is willing
//! to serve. Upwards it goes by block number; downwards it follows the parent
//! hashes and ends at genesis.

use vstd::prelude::*;
use crate::chain::{BlockId, Client, ClientError, Header, HeaderView};
use crate::message::{attributes_of, BlockAttributes, Direction, BODY, HEADER, JUSTIFICATION};
use crate::octets::{copy_bytes, opt_seq, opt_seqs};
use crate::scale::{
    decode_hash, decode_number, encode_hash, hash_decoding, hash_encoding, number_decoding,
    CodecError,
};
use crate::schema;
use crate::schema::{FromBlockView, ASCENDING, DESCENDING};

verus! {

/// Why a request gets no response.
#[derive(Clone, Debug, PartialEq, Eq)]
pub enum RequestError {
    /// The request names no block to start from.
    MissingFromBlock,
    /// The start block is no well-formed hash or number.
    InvalidFromBlock(CodecError),
    /// The direction is neither ascending nor descending.
    InvalidDirection(i32),
    /// The attribute flags set a bit that stands for nothing.
    InvalidAttributes(u32),
    /// The block store failed to give a body or a justification.
    Client(ClientError),
}

/// The number of blocks that a response may hold at most: what the request
/// asks for, where it asks for a number, but never more than `cap`.
pub open spec fn effective_max(max_blocks: u32, cap: u32) -> u32 {
    if max_blocks == 0 || max_blocks > cap {
        cap
    } else {
        max_blocks
    }
}

/// The direction that a wire value stands for.
pub open spec fn direction_of(wire: i32) -> Option<Direction> {
    if wire == ASCENDING {
        Some(Direction::Ascending)
    } else if wire == DESCENDING {
        Some(Direction::Descending)
    } else {
        None
    }
}

/// What is wrong with the start block of a request, if anything.
pub open spec fn start_error(from_block: Option<FromBlockView>) -> Option<RequestError> {
    match from_block {
        None => Some(RequestError::MissingFromBlock),
        Some(FromBlockView::Hash(bytes)) => if hash_decoding(bytes) is None {
            Some(
                RequestError::InvalidFromBlock(
                    CodecError::NotEnoughData { needed: 32, found: bytes.len() as usize },
                ),
            )
        } else {
            None
        },
        Some(FromBlockView::Number(bytes)) => if number_decoding(bytes) is None {
            Some(
                RequestError::InvalidFromBlock(
                    CodecError::NotEnoughData { needed: 8, found: bytes.len() as usize },
                ),
            )
        } else {
            None
        },
    }
}

/// What is wrong with a request, if anything: the start block is looked at
/// first, then the direction, then the attribute flags.
pub open spec fn request_error(request: schema::BlockRequestView) -> Option<RequestError> {
    if start_error(request.from_block) is Some {
        start_error(request.from_block)
    } else if direction_of(request.direction) is None {
        Some(RequestError::InvalidDirection(request.direction))
    } else if attributes_of(request.fields) is None {
        Some(RequestError::InvalidAttributes(request.fields))
    } else {
        None
    }
}

/// Whether `id` is the block that the start of a request names.
pub open spec fn starts_at(from_block: Option<FromBlockView>, id: BlockId) -> bool {
    match (from_block, id) {
        (Some(FromBlockView::Hash(bytes)), BlockId::Hash(hash)) => hash_decoding(bytes) == Some(
            hash.bytes@,
        ),
        (Some(FromBlockView::Number(bytes)), BlockId::Number(number)) => number_decoding(bytes)
            == Some(number),
        _ => false,
    }
}

/// The block to look up after the one with the given header: the next number
/// on the way up, the parent on the way down. `None` past genesis and past
/// the last number there can be.
pub open spec fn next_id(direction: Direction, header: HeaderView) -> Option<BlockId> {
    match direction {
        Direction::Ascending => if header.number < u64::MAX {
            Some(BlockId::Number((header.number + 1) as u64))
        } else {
            None
        },
        Direction::Descending => if header.number == 0 {
            None
        } else {
            Some(BlockId::Hash(header.parent_hash))
        },
    }
}

/// The bytes of an optional byte string: none where there is none.
pub open spec fn bytes_or_empty(item: Option<Seq<u8>>) -> Seq<u8> {
    match item {
        Some(bytes) => bytes,
        None => Seq::empty(),
    }
}

/// The items of an optional list: none where there is none.
pub open spec fn items_or_empty(items: Option<Seq<Seq<u8>>>) -> Seq<Seq<u8>> {
    match items {
        Some(list) => list,
        None => Seq::empty(),
    }
}

/// The record that a response holds for a block: its hash always, its header,
/// body and justification where the request asks for them, and never a
/// receipt or a message queue. A justification that exists and is empty is
/// told from a missing one by its flag.
pub open spec fn record(
    attributes: BlockAttributes,
    header: HeaderView,
    justification: Option<Seq<u8>>,
    body: Option<Seq<Seq<u8>>>,
) -> schema::BlockDataView {
    schema::BlockDataView {
        hash: hash_encoding(header.hash),
        header: if attributes.has(HEADER) {
            header.encoded
        } else {
            Seq::empty()
        },
        body: if attributes.has(BODY) {
            items_or_empty(body)
        } else {
            Seq::empty()
        },
        receipt: Seq::empty(),
        message_queue: Seq::empty(),
        justification: if attributes.has(JUSTIFICATION) {
            bytes_or_empty(justification)
        } else {
            Seq::empty()
        },
        is_empty_justification: attributes.has(JUSTIFICATION) && justification is Some
            && bytes_or_empty(justification).len() == 0,
    }
}

/// Whether a record holds nothing that the attributes do not ask for.
pub open spec fn selective(attributes: BlockAttributes, block: schema::BlockDataView) -> bool {
    &&& block.hash.len() == 32
    &&& !attributes.has(HEADER) ==> block.header.len() == 0
    &&& !attributes.has(BODY) ==> block.body.len() == 0
    &&& !attributes.has(JUSTIFICATION) ==> block.justification.len() == 0
        && !block.is_empty_justification
    &&& block.is_empty_justification ==> block.justification.len() == 0
    &&& block.receipt.len() == 0
    &&& block.message_queue.len() == 0
}

/// Every record of a list holds nothing that the attributes do not ask for.
pub open spec fn all_selective(
    attributes: BlockAttributes,
    blocks: Seq<schema::BlockDataView>,
) -> bool {
    forall|i: int| 0 <= i < blocks.len() ==> selective(attributes, #[trigger] blocks[i])
}

/// A record never holds what the attributes do not ask for, whatever the
/// block store gave.
pub proof fn lemma_record_selective(
    attributes: BlockAttributes,
    header: HeaderView,
    justification: Option<Seq<u8>>,
    body: Option<Seq<Seq<u8>>>,
)
    ensures
        selective(attributes, record(attributes, header, justification, body)),
{
}

/// Computes the number of blocks that a response may hold at most.
pub fn max_blocks_for(max_blocks: u32, cap: u32) -> (r: u32)
    ensures
        r == effective_max(max_blocks, cap),
        r <= cap,
        max_blocks != 0 ==> r <= max_blocks,
{
    if max_blocks == 0 || max_blocks > cap {
        cap
    } else {
        max_blocks
    }
}

/// Decodes the start block of a request.
pub fn start_of(from_block: &Option<schema::FromBlock>) -> (r: Result<BlockId, RequestError>)
    ensures
        match r {
            Ok(id) => start_error(schema::from_block_view(*from_block)) is None && starts_at(
                schema::from_block_view(*from_block),
                id,
            ),
            Err(error) => start_error(schema::from_block_view(*from_block)) == Some(error),
        },
{
    match from_block {
        None => Err(RequestError::MissingFromBlock),
        Some(schema::FromBlock::Hash(bytes)) => match decode_hash(bytes.as_slice()) {
            Ok(hash) => Ok(BlockId::Hash(hash)),
            Err(error) => Err(RequestError::InvalidFromBlock(error)),
        },
        Some(schema::FromBlock::Number(bytes)) => match decode_number(bytes.as_slice()) {
            Ok(number) => Ok(BlockId::Number(number)),
            Err(error) => Err(RequestError::InvalidFromBlock(error)),
        },
    }
}

/// Decodes the direction of a request.
pub fn direction_from(wire: i32) -> (r: Option<Direction>)
    ensures
        r == direction_of(wire),
{
    if wire == ASCENDING {
        Some(Direction::Ascending)
    } else if wire == DESCENDING {
        Some(Direction::Descending)
    } else {
        None
    }
}

/// Finds the block to look up after the one with the given header.
pub fn next_block_id(direction: Direction, header: &Header) -> (r: Option<BlockId>)
    ensures
        r == next_id(direction, header@),
{
    match direction {
        Direction::Ascending => match header.number.checked_add(1) {
            Some(number) => Some(BlockId::Number(number)),
            None => None,
        },
        Direction::Descending => if header.number == 0 {
            None
        } else {
            Some(BlockId::Hash(header.parent_hash))
        },
    }
}

/// Builds the record of a block from what the block store gave for it.
pub fn block_record(
    attributes: BlockAttributes,
    header: &Header,
    justification: Option<Vec<u8>>,
    body: Option<Vec<Vec<u8>>>,
) -> (r: schema::BlockData)
    ensures
        r@ == record(attributes, header@, opt_seq(justification), opt_seqs(body)),
{
    let wants_justification = attributes.contains(JUSTIFICATION);
    let is_empty_justification = wants_justification && match &justification {
        Some(bytes) => bytes.len() == 0,
        None => false,
    };
    let justification_bytes: Vec<u8> = if wants_justification {
        match justification {
            Some(bytes) => bytes,
            None => Vec::new(),
        }
    } else {
        Vec::new()
    };
    let body_items: Vec<Vec<u8>> = if attributes.contains(BODY) {
        match body {
            Some(items) => items,
            None => Vec::new(),
        }
    } else {
        Vec::new()
    };
    let header_bytes: Vec<u8> = if attributes.contains(HEADER) {
        copy_bytes(header.encoded.as_slice())
    } else {
        Vec::new()
    };
    let block = schema::BlockData {
        hash: encode_hash(&header.hash),
        header: header_bytes,
        body: body_items,
        receipt: Vec::new(),
        message_queue: Vec::new(),
        justification: justification_bytes,
        is_empty_justification,
    };
    proof {
        let expected = record(attributes, header@, opt_seq(justification), opt_seqs(body));
        assert(block@.body =~= expected.body);
        assert(block@.justification =~= expected.justification);
        assert(block@.header =~= expected.header);
        assert(block@.receipt =~= expected.receipt);
        assert(block@.message_queue =~= expected.message_queue);
    }
    block
}

/// The mathematical content of a [`Walk`].
pub struct WalkState {
    pub attributes: BlockAttributes,
    pub direction: Direction,
    pub max: u32,
    pub next: Option<BlockId>,
    pub blocks: Seq<schema::BlockDataView>,
}

impl WalkState {
    /// The block that the walk needs looked up; `None` when it is over: when
    /// it holds as many records as it may, or the chain has ended.
    pub open spec fn wanted(self) -> Option<BlockId> {
        if self.blocks.len() < self.max {
            self.next
        } else {
            None
        }
    }
}

/// What the block store gave at one step of a walk: the header of the block
/// that the walk needed, if it had one and did not fail, and its answers to
/// the questions for the justification and the body of that block.
pub struct Answers {
    pub header: Option<HeaderView>,
    pub justification: Result<Option<Seq<u8>>, ClientError>,
    pub body: Result<Option<Seq<Seq<u8>>>, ClientError>,
}

/// The header that an answer of the store holds; none where the store does
/// not have the block, and none where it failed.
pub open spec fn header_given(answer: Result<Option<Header>, ClientError>) -> Option<HeaderView> {
    match answer {
        Ok(Some(header)) => Some(header@),
        _ => None,
    }
}

/// The bytes that the store gave, where it did not fail.
pub open spec fn bytes_given(answer: Result<Option<Seq<u8>>, ClientError>) -> Option<Seq<u8>> {
    match answer {
        Ok(bytes) => bytes,
        Err(_) => None,
    }
}

/// The items that the store gave, where it did not fail.
pub open spec fn items_given(answer: Result<Option<Seq<Seq<u8>>>, ClientError>) -> Option<
    Seq<Seq<u8>>,
> {
    match answer {
        Ok(items) => items,
        Err(_) => None,
    }
}

/// The walk after one step. A walk that is over stays as it is. A header that
/// is not there ends the walk. A justification or a body that was asked for
/// and that the store failed to give fails the request, the justification
/// first. Else the record of the block joins the others, and the walk moves
/// on to the block after it.
pub open spec fn stepped(state: WalkState, answers: Answers) -> Result<WalkState, RequestError> {
    if state.wanted() is None {
        Ok(state)
    } else {
        match answers.header {
            None => Ok(WalkState { next: None, ..state }),
            Some(header) => match (answers.justification, answers.body) {
                (Err(error), _) if state.attributes.has(JUSTIFICATION) => Err(
                    RequestError::Client(error),
                ),
                (_, Err(error)) if state.attributes.has(BODY) => Err(RequestError::Client(error)),
                _ => Ok(
                    WalkState {
                        blocks: state.blocks.push(
                            record(
                                state.attributes,
                                header,
                                bytes_given(answers.justification),
                                items_given(answers.body),
                            ),
                        ),
                        next: next_id(state.direction, header),
                        ..state
                    },
                ),
            },
        }
    }
}

/// The walk after the store has given `answers`, one step after the other.
pub open spec fn outcome(state: WalkState, answers: Seq<Answers>) -> Result<
    WalkState,
    RequestError,
>
    decreases answers.len(),
{
    if answers.len() == 0 {
        Ok(state)
    } else {
        match stepped(state, answers[0]) {
            Err(error) => Err(error),
            Ok(next) => outcome(next, answers.skip(1)),
        }
    }
}

/// The walk that a well-formed request starts at the block `start`, on a node
/// that serves up to `cap` blocks in one response.
pub open spec fn started(request: schema::BlockRequestView, cap: u32, start: BlockId) -> WalkState {
    WalkState {
        attributes: attributes_of(request.fields).unwrap(),
        direction: direction_of(request.direction).unwrap(),
        max: effective_max(request.max_blocks, cap),
        next: Some(start),
        blocks: Seq::empty(),
    }
}

/// The walk of a request after the store has given `answers`.
pub open spec fn walked(
    request: schema::BlockRequestView,
    cap: u32,
    start: BlockId,
    answers: Seq<Answers>,
) -> Result<WalkState, RequestError> {
    outcome(started(request, cap, start), answers)
}

/// Whether `result` is what a request gets: its own error where it is not
/// well formed; and else what its walk comes to, step by step, on what the
/// store gave: the failure of a step, or the records of a walk that is over.
pub open spec fn served(
    request: schema::BlockRequestView,
    cap: u32,
    result: Result<Seq<schema::BlockDataView>, RequestError>,
) -> bool {
    match request_error(request) {
        Some(error) => result == Err::<Seq<schema::BlockDataView>, RequestError>(error),
        None => exists|start: BlockId, answers: Seq<Answers>|
            starts_at(request.from_block, start) && match #[trigger] walked(
                request,
                cap,
                start,
                answers,
            ) {
                Err(error) => result == Err::<Seq<schema::BlockDataView>, RequestError>(error),
                Ok(state) => state.wanted() is None && result == Ok::<
                    Seq<schema::BlockDataView>,
                    RequestError,
                >(state.blocks),
            },
    }
}

/// The records of a response, or the error in its place.
pub open spec fn records_of(result: Result<schema::BlockResponse, RequestError>) -> Result<
    Seq<schema::BlockDataView>,
    RequestError,
> {
    match result {
        Ok(response) => Ok(response@.blocks),
        Err(error) => Err(error),
    }
}

/// One more answer takes the walk one more step.
pub proof fn lemma_outcome_push(state: WalkState, answers: Seq<Answers>, last: Answers)
    ensures
        outcome(state, answers.push(last)) == match outcome(state, answers) {
            Err(error) => Err::<WalkState, RequestError>(error),
            Ok(reached) => stepped(reached, last),
        },
    decreases answers.len(),
{
    let all = answers.push(last);
    if answers.len() == 0 {
        assert(all[0] == last);
        assert(all.skip(1) =~= Seq::<Answers>::empty());
        match stepped(state, last) {
            Err(_) => {},
            Ok(next) => {
                assert(outcome(next, all.skip(1)) == Ok::<WalkState, RequestError>(next));
            },
        }
    } else {
        assert(all[0] == answers[0]);
        assert(all.skip(1) =~= answers.skip(1).push(last));
        match stepped(state, answers[0]) {
            Err(_) => {},
            Ok(next) => {
                lemma_outcome_push(next, answers.skip(1), last);
            },
        }
    }
}

/// A walk along the chain in progress: what was asked for, the records taken
/// so far, and the block to look up next.
#[derive(Debug)]
pub struct Walk {
    /// The parts of each block that the request asks for.
    pub attributes: BlockAttributes,
    /// The direction of the walk.
    pub direction: Direction,
    /// The largest number of records that the walk may take.
    pub max: u32,
    /// The block to look up next; `None` once the chain has ended.
    pub next: Option<BlockId>,
    /// The records taken so far, in the order of the walk.
    pub blocks: Vec<schema::BlockData>,
}

impl View for Walk {
    type V = WalkState;

    open spec fn view(&self) -> WalkState {
        WalkState {
            attributes: self.attributes,
            direction: self.direction,
            max: self.max,
            next: self.next,
            blocks: schema::block_views(self.blocks@),
        }
    }
}

impl Walk {
    /// Whether the walk holds no more records than it may and none that says
    /// more than was asked for.
    pub open spec fn wf(&self) -> bool {
        &&& self.blocks@.len() <= self.max
        &&& self.attributes.valid()
        &&& all_selective(self.attributes, schema::block_views(self.blocks@))
    }

    /// The block that the walk needs looked up; `None` when it is over.
    pub open spec fn wanted_id(&self) -> Option<BlockId> {
        self@.wanted()
    }

    /// Starts the walk that `request` asks for, on a node that serves up to
    /// `cap` blocks in one response.
    pub fn begin(request: &schema::BlockRequest, cap: u32) -> (r: Result<Walk, RequestError>)
        ensures
            match r {
                Ok(walk) => {
                    &&& request_error(request@) is None
                    &&& walk.wf()
                    &&& walk.blocks@.len() == 0
                    &&& walk.max == effective_max(request.max_blocks, cap)
                    &&& Some(walk.direction) == direction_of(request.direction)
                    &&& Some(walk.attributes) == attributes_of(request.fields)
                    &&& walk.next is Some
                    &&& starts_at(request@.from_block, walk.next.unwrap())
                },
                Err(error) => request_error(request@) == Some(error),
            },
    {
        let start = match start_of(&request.from_block) {
            Ok(id) => id,
            Err(error) => {
                return Err(error);
            },
        };
        let max = max_blocks_for(request.max_blocks, cap);
        let direction = match direction_from(request.direction) {
            Some(direction) => direction,
            None => {
                return Err(RequestError::InvalidDirection(request.direction));
            },
        };
        let attributes = match BlockAttributes::from_be_u32(request.fields) {
            Ok(attributes) => attributes,
            Err(_) => {
                return Err(RequestError::InvalidAttributes(request.fields));
            },
        };
        Ok(Walk { attributes, direction, max, next: Some(start), blocks: Vec::new() })
    }

    /// The block that the walk needs looked up; `None` when it is over.
    pub fn wanted(&self) -> (r: Option<BlockId>)
        ensures
            r == self.wanted_id(),
    {
        if self.blocks.len() < self.max as usize {
            self.next
        } else {
            None
        }
    }

    /// Whether the records are to hold justifications.
    pub fn wants_justification(&self) -> (r: bool)
        ensures
            r == self.attributes.has(JUSTIFICATION),
    {
        self.attributes.contains(JUSTIFICATION)
    }

    /// Whether the records are to hold bodies.
    pub fn wants_body(&self) -> (r: bool)
        ensures
            r == self.attributes.has(BODY),
    {
        self.attributes.contains(BODY)
    }

    /// Takes the block that was looked up into the walk: its record joins the
    /// others, and the walk moves on to the block after it. A walk that is
    /// over takes nothing.
    pub fn visit(
        &mut self,
        header: &Header,
        justification: Option<Vec<u8>>,
        body: Option<Vec<Vec<u8>>>,
    )
        requires
            old(self).wf(),
        ensures
            final(self).wf(),
            final(self).attributes == old(self).attributes,
            final(self).direction == old(self).direction,
            final(self).max == old(self).max,
            old(self).wanted_id() is Some ==> {
                &&& schema::block_views(final(self).blocks@) == schema::block_views(
                    old(self).blocks@,
                ).push(
                    record(old(self).attributes, header@, opt_seq(justification), opt_seqs(body)),
                )
                &&& final(self).blocks@.len() == old(self).blocks@.len() + 1
                &&& final(self).next == next_id(old(self).direction, header@)
            },
            old(self).wanted_id() is None ==> {
                &&& final(self).blocks == old(self).blocks
                &&& final(self).next == old(self).next
            },
    {
        if self.wanted().is_none() {
            return ;
        }
        let block = block_record(self.attributes, header, justification, body);
        let ghost content = block@;
        proof {
            lemma_record_selective(
                self.attributes,
                header@,
                opt_seq(justification),
                opt_seqs(body),
            );
        }
        self.blocks.push(block);
        self.next = next_block_id(self.direction, header);
        assert(schema::block_views(self.blocks@) =~= schema::block_views(old(self).blocks@).push(
            content,
        ));
    }

    /// Ends the walk: the block that it needed is not there.
    pub fn end(&mut self)
        requires
            old(self).wf(),
        ensures
            final(self).wf(),
            final(self).next is None,
            final(self).blocks == old(self).blocks,
            final(self).attributes == old(self).attributes,
            final(self).direction == old(self).direction,
            final(self).max == old(self).max,
    {
        self.next = None;
    }

    /// Takes the answer of the store to the question for the header that the
    /// walk needed. A header goes on to the next questions; a block that the
    /// store does not have, and a lookup that failed, end the walk.
    pub fn found(&mut self, answer: Result<Option<Header>, ClientError>) -> (r: Option<Header>)
        requires
            old(self).wf(),
        ensures
            final(self).wf(),
            final(self).blocks == old(self).blocks,
            final(self).attributes == old(self).attributes,
            final(self).direction == old(self).direction,
            final(self).max == old(self).max,
            match answer {
                Ok(Some(header)) => r == Some(header) && final(self).next == old(self).next,
                _ => r is None && final(self).next is None,
            },
    {
        match answer {
            Ok(Some(header)) => Some(header),
            _ => {
                self.end();
                None
            },
        }
    }

    /// The name under which the store is asked for the justification and the
    /// body of the block with the given header: the hash of the block.
    pub fn parts_id(header: &Header) -> (r: BlockId)
        ensures
            r == BlockId::Hash(header.hash),
    {
        BlockId::Hash(header.hash)
    }

    /// The response that holds the records of the walk.
    pub fn finish(self) -> (r: schema::BlockResponse)
        ensures
            r@.blocks == schema::block_views(self.blocks@),
    {
        schema::BlockResponse { blocks: self.blocks }
    }
}

/// Answers `request` from `chain`, on a node that serves up to `cap` blocks in
/// one response.
///
/// A request that is not well formed is refused before the block store is
/// asked anything. A header that the store does not have, or fails to give,
/// ends the walk; a body or a justification that it fails to give makes the
/// request fail.
pub fn serve_request<C: Client>(chain: &C, cap: u32, request: &schema::BlockRequest) -> (r: Result<
    schema::BlockResponse,
    RequestError,
>)
    ensures
        served(request@, cap, records_of(r)),
        match r {
            Ok(response) => {
                &&& request_error(request@) is None
                &&& response@.blocks.len() <= effective_max(request.max_blocks, cap)
                &&& all_selective(attributes_of(request.fields).unwrap(), response@.blocks)
            },
            Err(error) => match request_error(request@) {
                Some(expected) => error == expected,
                None => {
                    &&& error is Client
                    &&& effective_max(request.max_blocks, cap) > 0
                    &&& attributes_of(request.fields).unwrap().has(JUSTIFICATION)
                        || attributes_of(request.fields).unwrap().has(BODY)
                },
            },
        },
{
    let mut walk = match Walk::begin(request, cap) {
        Ok(walk) => walk,
        Err(error) => {
            return Err(error);
        },
    };
    let ghost start = walk.next.unwrap();
    let ghost mut given: Seq<Answers> = Seq::empty();
    assert(walk@ == started(request@, cap, start)) by {
        assert(walk@.blocks =~= Seq::<schema::BlockDataView>::empty());
    }
    loop
        invariant
            walk.wf(),
            request_error(request@) is None,
            starts_at(request@.from_block, start),
            walk.max == effective_max(request.max_blocks, cap),
            Some(walk.attributes) == attributes_of(request.fields),
            walked(request@, cap, start, given) == Ok::<WalkState, RequestError>(walk@),
        ensures
            walk@.wanted() is None,
        decreases walk.max - walk.blocks@.len(),
    {
        let id = match walk.wanted() {
            Some(id) => id,
            None => {
                break ;
            },
        };
        let ghost before = walk@;
        let header = match walk.found(chain.header(&id)) {
            Some(header) => header,
            None => {
                proof {
                    let step = Answers { header: None, justification: Ok(None), body: Ok(None) };
                    lemma_outcome_push(started(request@, cap, start), given, step);
                    given = given.push(step);
                    assert(walk@ == (WalkState { next: None, ..before }));
                }
                break ;
            },
        };
        let block = Walk::parts_id(&header);
        let justification = if walk.wants_justification() {
            match chain.justification(&block) {
                Ok(justification) => justification,
                Err(error) => {
                    proof {
                        let step = Answers {
                            header: Some(header@),
                            justification: Err(error),
                            body: Ok(None),
                        };
                        lemma_outcome_push(started(request@, cap, start), given, step);
                        assert(walked(request@, cap, start, given.push(step)) == Err::<
                            WalkState,
                            RequestError,
                        >(RequestError::Client(error)));
                    }
                    return Err(RequestError::Client(error));
                },
            }
        } else {
            None
        };
        let body = if walk.wants_body() {
            match chain.block_body(&block) {
                Ok(body) => body,
                Err(error) => {
                    proof {
                        let step = Answers {
                            header: Some(header@),
                            justification: Ok(opt_seq(justification)),
                            body: Err(error),
                        };
                        lemma_outcome_push(started(request@, cap, start), given, step);
                        assert(walked(request@, cap, start, given.push(step)) == Err::<
                            WalkState,
                            RequestError,
                        >(RequestError::Client(error)));
                    }
                    return Err(RequestError::Client(error));
                },
            }
        } else {
            None
        };
        proof {
            let step = Answers {
                header: Some(header@),
                justification: Ok(opt_seq(justification)),
                body: Ok(opt_seqs(body)),
            };
            lemma_outcome_push(started(request@, cap, start), given, step);
            given = given.push(step);
        }
        walk.visit(&header, justification, body);
    }
    let ghost reached = walk@;
    let response = walk.finish();
    assert(walked(request@, cap, start, given) == Ok::<WalkState, RequestError>(reached));
    Ok(response)
}

} // verus!
