//! The behaviour: which peers are connected, which request is outstanding on
//! which connection, and what to tell the connection manager next.
//!
//! The behaviour never waits. The caller reports connections that open and
//! close and events that substreams bring, each with the current reading of
//! its clock, and asks with `poll` for the next action to carry out.

use vstd::prelude::*;
use std::collections::VecDeque;
use crate::chain::Client;
use crate::framing::{read_one, write_one, ReadOneError};
use crate::message;
use crate::message::{BlockAttributes, BlockRequest, Direction, FromBlock, BODY};
use crate::octets::{copy_byte_lists, copy_bytes};
use crate::laws::{
    lemma_closed_keeps_wf, lemma_established_keeps_wf, lemma_poll_keeps_wf,
    lemma_response_keeps_wf, lemma_send_keeps_wf,
};
use crate::responder::{
    all_selective, effective_max, records_of, request_error, serve_request, served,
};
use crate::scale::{
    decode_hash, encode_hash, encode_number, hash_decoding, hash_encoding, number_encoding,
};
use crate::schema;
use crate::types::{
    elapsed_between, instant_after, BlockHash, ConnectionId, Duration, Instant, PeerId,
};
use crate::wire::{EncodeError, WireError};

verus! {

/// The identifier of the chain's protocol family, the middle of every
/// protocol name.
#[derive(Debug, PartialEq, Eq)]
pub struct ProtocolId {
    pub bytes: Vec<u8>,
}

impl ProtocolId {
    /// The identifier made of `bytes`.
    pub fn from_bytes(bytes: Vec<u8>) -> (r: ProtocolId)
        ensures
            r.bytes@ == bytes@,
    {
        ProtocolId { bytes }
    }

    /// The bytes of the identifier.
    pub fn as_bytes(&self) -> (r: &[u8])
        ensures
            r@ == self.bytes@,
    {
        self.bytes.as_slice()
    }
}

/// The name under which the protocol is negotiated: a slash, the identifier,
/// and `/sync/2`.
pub open spec fn protocol_name_of(id: Seq<u8>) -> Seq<u8> {
    seq![0x2fu8] + id + seq![0x2fu8, 0x73u8, 0x79u8, 0x6eu8, 0x63u8, 0x2fu8, 0x32u8]
}

/// Configuration options of the behaviour.
#[derive(Debug, PartialEq, Eq)]
pub struct Config {
    /// The largest number of blocks in a response.
    pub max_block_data_response: u32,
    /// The largest length of a request, in bytes.
    pub max_request_len: usize,
    /// The largest length of a response, in bytes.
    pub max_response_len: usize,
    /// How long a substream may stay idle before it is closed.
    pub inactivity_timeout: Duration,
    /// How long a request may stay unanswered.
    pub request_timeout: Duration,
    /// The name under which the protocol is negotiated.
    pub protocol: Vec<u8>,
}

/// The mathematical content of a [`Config`].
pub struct ConfigView {
    pub max_block_data_response: u32,
    pub max_request_len: usize,
    pub max_response_len: usize,
    pub inactivity_timeout: Duration,
    pub request_timeout: Duration,
    pub protocol: Seq<u8>,
}

impl View for Config {
    type V = ConfigView;

    open spec fn view(&self) -> ConfigView {
        ConfigView {
            max_block_data_response: self.max_block_data_response,
            max_request_len: self.max_request_len,
            max_response_len: self.max_response_len,
            inactivity_timeout: self.inactivity_timeout,
            request_timeout: self.request_timeout,
            protocol: self.protocol@,
        }
    }
}

impl ConfigView {
    /// The options that a fresh configuration for `id` holds: 128 blocks in a
    /// response, requests of up to 1 MiB, responses of up to 16 MiB, 15
    /// seconds of inactivity, 40 seconds for a request.
    pub open spec fn fresh(id: Seq<u8>) -> ConfigView {
        ConfigView {
            max_block_data_response: 128,
            max_request_len: 1048576,
            max_response_len: 16777216,
            inactivity_timeout: Duration { millis: 15000 },
            request_timeout: Duration { millis: 40000 },
            protocol: protocol_name_of(id),
        }
    }
}

/// A request that was sent and is neither answered nor given up.
#[derive(Clone, Copy, Debug, PartialEq, Eq)]
pub struct OngoingRequest {
    /// When the request was emitted.
    pub emitted: Instant,
    /// The request.
    pub request: BlockRequest,
    /// When the request times out.
    pub deadline: Instant,
}

/// A connection to a peer, with the request outstanding on it, if any.
#[derive(Clone, Copy, Debug, PartialEq, Eq)]
pub struct Connection {
    pub id: ConnectionId,
    pub ongoing_request: Option<OngoingRequest>,
}

/// A connected peer and its connections, oldest first.
#[derive(Debug)]
pub struct PeerConnections {
    pub peer: PeerId,
    pub connections: Vec<Connection>,
}

/// The mathematical content of a [`PeerConnections`].
pub struct PeerView {
    pub peer: Seq<u8>,
    pub connections: Seq<Connection>,
}

impl View for PeerConnections {
    type V = PeerView;

    open spec fn view(&self) -> PeerView {
        PeerView { peer: self.peer@, connections: self.connections@ }
    }
}

/// The peers of a table, each by its content.
pub open spec fn peer_views(peers: Seq<PeerConnections>) -> Seq<PeerView> {
    Seq::new(peers.len(), |i: int| peers[i]@)
}

/// Outcome of `send_request`.
#[derive(Clone, Copy, Debug, PartialEq, Eq)]
#[must_use]
pub enum SendRequestOutcome {
    /// The request has been emitted.
    Sent,
    /// The request has been emitted and has taken the place of an earlier one.
    Replaced {
        /// The request that was outstanding.
        previous: BlockRequest,
        /// The time since `previous` was emitted.
        request_duration: Duration,
    },
    /// No request was started: there is no connection to the peer. The
    /// behaviour is as if the call had not been made.
    NotConnected,
    /// The request could not be serialised.
    EncodeError(EncodeError),
}

/// What the behaviour reports to the layers above.
#[derive(Debug, PartialEq, Eq)]
pub enum Event {
    /// A request of a remote peer has been answered.
    AnsweredRequest {
        /// The peer that asked.
        peer: PeerId,
        /// The time from the arrival of the request to the end of the write.
        total_handling_time: Duration,
    },
    /// The response to a request has arrived.
    Response {
        peer: PeerId,
        /// The request as it was handed to `send_request`.
        original_request: BlockRequest,
        response: message::BlockResponse,
        /// The time from the start of the request to the response.
        request_duration: Duration,
    },
    /// A request was given up because its connection closed. A request that
    /// `send_request` replaces is not reported so.
    RequestCancelled {
        peer: PeerId,
        /// The request as it was handed to `send_request`.
        original_request: BlockRequest,
        /// The time from the start of the request to the cancellation.
        request_duration: Duration,
    },
    /// A request has timed out.
    RequestTimeout {
        peer: PeerId,
        /// The request as it was handed to `send_request`.
        original_request: BlockRequest,
        /// The time from the start of the request to the timeout.
        request_duration: Duration,
    },
}

/// The mathematical content of an [`Event`].
pub enum EventView {
    AnsweredRequest { peer: Seq<u8>, total_handling_time: Duration },
    Response {
        peer: Seq<u8>,
        original_request: BlockRequest,
        response: message::BlockResponseView,
        request_duration: Duration,
    },
    RequestCancelled { peer: Seq<u8>, original_request: BlockRequest, request_duration: Duration },
    RequestTimeout { peer: Seq<u8>, original_request: BlockRequest, request_duration: Duration },
}

impl View for Event {
    type V = EventView;

    open spec fn view(&self) -> EventView {
        match self {
            Event::AnsweredRequest { peer, total_handling_time } => EventView::AnsweredRequest {
                peer: peer@,
                total_handling_time: *total_handling_time,
            },
            Event::Response {
                peer,
                original_request,
                response,
                request_duration,
            } => EventView::Response {
                peer: peer@,
                original_request: *original_request,
                response: response@,
                request_duration: *request_duration,
            },
            Event::RequestCancelled {
                peer,
                original_request,
                request_duration,
            } => EventView::RequestCancelled {
                peer: peer@,
                original_request: *original_request,
                request_duration: *request_duration,
            },
            Event::RequestTimeout {
                peer,
                original_request,
                request_duration,
            } => EventView::RequestTimeout {
                peer: peer@,
                original_request: *original_request,
                request_duration: *request_duration,
            },
        }
    }
}

/// What a substream brings: a request of the remote, or the remote's
/// response to a request of ours.
#[derive(Debug)]
pub enum NodeEvent<T> {
    /// A request, the substream to answer it on, and when it arrived.
    Request(schema::BlockRequest, T, Instant),
    /// A response, with the request that it answers.
    Response(BlockRequest, schema::BlockResponse),
}

/// The inbound side of a substream: one request is read from it.
#[derive(Debug, PartialEq, Eq)]
pub struct InboundProtocol {
    /// The largest length of a request, in bytes.
    pub max_request_len: usize,
    /// The name under which the protocol is negotiated.
    pub protocol: Vec<u8>,
}

/// The outbound side of a substream: one request is written to it, and one
/// response is read from it.
#[derive(Debug, PartialEq, Eq)]
pub struct OutboundProtocol {
    /// The serialised request.
    pub request: Vec<u8>,
    /// The request as it was handed to `send_request`; it comes back with the response.
    pub original_request: BlockRequest,
    /// The largest length of a response, in bytes.
    pub max_response_size: usize,
    /// The name under which the protocol is negotiated.
    pub protocol: Vec<u8>,
}

/// The mathematical content of an [`OutboundProtocol`].
pub struct OutboundProtocolView {
    pub request: Seq<u8>,
    pub original_request: BlockRequest,
    pub max_response_size: usize,
    pub protocol: Seq<u8>,
}

impl View for OutboundProtocol {
    type V = OutboundProtocolView;

    open spec fn view(&self) -> OutboundProtocolView {
        OutboundProtocolView {
            request: self.request@,
            original_request: self.original_request,
            max_response_size: self.max_response_size,
            protocol: self.protocol@,
        }
    }
}

/// What the connection manager is to do next.
#[derive(Debug, PartialEq, Eq)]
pub enum Action {
    /// Report the event to the layers above.
    GenerateEvent(Event),
    /// Open a substream on the given connection of the peer and run the
    /// outbound protocol on it.
    NotifyHandler { peer_id: PeerId, connection: ConnectionId, event: OutboundProtocol },
}

/// The mathematical content of an [`Action`].
pub enum ActionView {
    GenerateEvent(EventView),
    NotifyHandler { peer_id: Seq<u8>, connection: ConnectionId, event: OutboundProtocolView },
}

impl View for Action {
    type V = ActionView;

    open spec fn view(&self) -> ActionView {
        match self {
            Action::GenerateEvent(event) => ActionView::GenerateEvent(event@),
            Action::NotifyHandler { peer_id, connection, event } => ActionView::NotifyHandler {
                peer_id: peer_id@,
                connection: *connection,
                event: event@,
            },
        }
    }
}

/// The actions of a queue, each by its content.
pub open spec fn action_views(actions: Seq<Action>) -> Seq<ActionView> {
    Seq::new(actions.len(), |i: int| actions[i]@)
}

/// What `poll` found.
#[derive(Debug, PartialEq, Eq)]
pub enum PollResult {
    /// An action to carry out.
    Ready(Action),
    /// Nothing to do until something happens.
    Pending,
}

/// A response that is ready to be written to the substream of its request.
#[derive(Debug)]
pub struct OutgoingResponse<T> {
    /// The peer that asked.
    pub peer: PeerId,
    /// The substream to write to.
    pub substream: T,
    /// The serialised response.
    pub data: Vec<u8>,
    /// When the request arrived.
    pub handling_start: Instant,
}

/// How each connection of a peer is to be handled.
#[derive(Debug, PartialEq, Eq)]
pub struct HandlerConfig {
    /// The protocol to run on inbound substreams.
    pub inbound: InboundProtocol,
    /// How long a connection may stay idle before its handler closes.
    pub inactive_timeout: Duration,
    /// How long a substream may take.
    pub substream_timeout: Duration,
}

/// Why a substream brought no event.
#[derive(Clone, Copy, Debug, PartialEq, Eq, Structural)]
pub enum UpgradeError {
    /// No message could be read.
    Read(ReadOneError),
    /// The message is no well-formed protobuf of the expected kind.
    Decode(WireError),
}

/// What is looked for in a list of connections.
#[derive(Clone, Copy, Debug, PartialEq, Eq)]
pub enum Sought {
    /// A connection with an outstanding request.
    Busy,
    /// The connection with this identity.
    WithId(ConnectionId),
    /// A connection whose outstanding request has timed out at this instant.
    Expired(Instant),
}

impl Sought {
    /// Whether `connection` is what is looked for.
    pub open spec fn found_in(self, connection: Connection) -> bool {
        match self {
            Sought::Busy => connection.ongoing_request is Some,
            Sought::WithId(id) => connection.id == id,
            Sought::Expired(now) => connection.ongoing_request is Some
                && now.millis >= connection.ongoing_request.unwrap().deadline.millis,
        }
    }
}

/// The first index at or after `from` of a connection that is looked for.
pub open spec fn first_match(connections: Seq<Connection>, sought: Sought, from: int) -> Option<
    int,
>
    decreases connections.len() - from,
{
    if from < 0 || from >= connections.len() {
        None
    } else if sought.found_in(connections[from]) {
        Some(from)
    } else {
        first_match(connections, sought, from + 1)
    }
}

/// The first index at or after `from` of the entry of `peer`.
pub open spec fn peer_index(peers: Seq<PeerView>, peer: Seq<u8>, from: int) -> Option<int>
    decreases peers.len() - from,
{
    if from < 0 || from >= peers.len() {
        None
    } else if peers[from].peer == peer {
        Some(from)
    } else {
        peer_index(peers, peer, from + 1)
    }
}

/// The first connection, in the order of the table, whose outstanding
/// request has timed out at `now`: the index of its peer and its own index.
pub open spec fn first_expired(peers: Seq<PeerView>, now: Instant, from: int) -> Option<(int, int)>
    decreases peers.len() - from,
{
    if from < 0 || from >= peers.len() {
        None
    } else {
        match first_match(peers[from].connections, Sought::Expired(now), 0) {
            Some(position) => Some((from, position)),
            None => first_expired(peers, now, from + 1),
        }
    }
}

/// The connections of `peer`; none where the peer is not connected.
pub open spec fn connections_of(peers: Seq<PeerView>, peer: Seq<u8>) -> Seq<Connection> {
    match peer_index(peers, peer, 0) {
        Some(i) => peers[i].connections,
        None => Seq::empty(),
    }
}

/// What `first_match` finds is looked for, lies in the list, and nothing
/// before it is looked for; where it finds nothing, nothing is.
pub proof fn lemma_first_match(connections: Seq<Connection>, sought: Sought, from: int)
    requires
        0 <= from,
    ensures
        match first_match(connections, sought, from) {
            Some(i) => from <= i < connections.len() && sought.found_in(connections[i]) && forall|
                j: int,
            |
                from <= j < i ==> !sought.found_in(#[trigger] connections[j]),
            None => forall|j: int|
                from <= j < connections.len() ==> !sought.found_in(#[trigger] connections[j]),
        },
    decreases connections.len() - from,
{
    if from < connections.len() && !sought.found_in(connections[from]) {
        lemma_first_match(connections, sought, from + 1);
    }
}

/// What `peer_index` finds is an entry of the peer, and no entry before it
/// is; where it finds nothing, the peer has no entry.
pub proof fn lemma_peer_index(peers: Seq<PeerView>, peer: Seq<u8>, from: int)
    requires
        0 <= from,
    ensures
        match peer_index(peers, peer, from) {
            Some(i) => from <= i < peers.len() && peers[i].peer == peer && forall|j: int|
                from <= j < i ==> (#[trigger] peers[j]).peer != peer,
            None => forall|j: int| from <= j < peers.len() ==> (#[trigger] peers[j]).peer != peer,
        },
    decreases peers.len() - from,
{
    if from < peers.len() && peers[from].peer != peer {
        lemma_peer_index(peers, peer, from + 1);
    }
}

/// What `first_expired` finds lies in the table and has timed out.
pub proof fn lemma_first_expired(peers: Seq<PeerView>, now: Instant, from: int)
    requires
        0 <= from,
    ensures
        match first_expired(peers, now, from) {
            Some((i, j)) => from <= i < peers.len() && 0 <= j < peers[i].connections.len()
                && Sought::Expired(now).found_in(peers[i].connections[j]),
            None => forall|i: int, j: int|
                from <= i < peers.len() && 0 <= j < peers[i].connections.len()
                    ==> !Sought::Expired(now).found_in(#[trigger] peers[i].connections[j]),
        },
    decreases peers.len() - from,
{
    if from < peers.len() {
        lemma_first_match(peers[from].connections, Sought::Expired(now), 0);
        if first_match(peers[from].connections, Sought::Expired(now), 0) is None {
            lemma_first_expired(peers, now, from + 1);
        }
    }
}

/// A response that has been written: the peer that asked, and the time from
/// the arrival of its request to the end of the write.
pub struct WrittenView {
    pub peer: Seq<u8>,
    pub total_handling_time: Duration,
}

/// What the behaviour knows: the connected peers in the order in which they
/// connected, the actions that wait to be handed out, oldest first, and the
/// responses that have been written and not been reported yet, oldest first.
pub struct State {
    pub peers: Seq<PeerView>,
    pub pending: Seq<ActionView>,
    pub written: Seq<WrittenView>,
}

/// Whether every peer of the table has a connection and no peer is there twice.
pub open spec fn table_wf(peers: Seq<PeerView>) -> bool {
    &&& forall|i: int| 0 <= i < peers.len() ==> (#[trigger] peers[i]).connections.len() > 0
    &&& forall|i: int, j: int|
        0 <= i < j < peers.len() ==> (#[trigger] peers[i]).peer != (#[trigger] peers[j]).peer
}

/// Whether no peer has requests outstanding on two of its connections.
pub open spec fn single_flight(peers: Seq<PeerView>) -> bool {
    forall|i: int, j: int, k: int|
        0 <= i < peers.len() && 0 <= j < k < peers[i].connections.len() ==> !(Sought::Busy.found_in(
            #[trigger] peers[i].connections[j],
        ) && Sought::Busy.found_in(#[trigger] peers[i].connections[k]))
}

/// Whether no action of the queue reports a timeout: timeouts are handed out
/// as they are found, and never wait.
pub open spec fn no_timeout_waits(pending: Seq<ActionView>) -> bool {
    forall|k: int|
        0 <= k < pending.len() ==> !((#[trigger] pending[k]) is GenerateEvent
            && pending[k]->GenerateEvent_0 is RequestTimeout)
}

impl State {
    /// Whether the state is well formed: a peer is in the table exactly as
    /// long as it has a connection, no peer is there twice, no peer has more
    /// than one request outstanding, and no timeout waits in the queue.
    pub open spec fn wf(self) -> bool {
        table_wf(self.peers) && single_flight(self.peers) && no_timeout_waits(self.pending)
    }

    /// The request that is outstanding for `peer`, if there is one.
    pub open spec fn outstanding(self, peer: Seq<u8>) -> Option<OngoingRequest> {
        let connections = connections_of(self.peers, peer);
        match first_match(connections, Sought::Busy, 0) {
            Some(position) => connections[position].ongoing_request,
            None => None,
        }
    }
}

/// The state after a connection to `peer` has been established: the
/// connection joins the end of the peer's list, with no request on it; a peer
/// that was not connected joins the end of the table.
pub open spec fn after_established(state: State, peer: Seq<u8>, id: ConnectionId) -> State {
    let connection = Connection { id, ongoing_request: None };
    match peer_index(state.peers, peer, 0) {
        Some(i) => State {
            peers: state.peers.update(
                i,
                PeerView { peer, connections: state.peers[i].connections.push(connection) },
            ),
            ..state
        },
        None => State {
            peers: state.peers.push(PeerView { peer, connections: seq![connection] }),
            ..state
        },
    }
}

/// The state after the connection `id` of `peer` has closed at `now`: the
/// connection leaves the peer's list, and the peer leaves the table with its
/// last connection. A request that was outstanding on the connection is
/// reported as cancelled. Nothing changes where the peer or the connection is
/// not known.
pub open spec fn after_closed(state: State, peer: Seq<u8>, id: ConnectionId, now: Instant) -> State {
    match peer_index(state.peers, peer, 0) {
        None => state,
        Some(i) => match first_match(state.peers[i].connections, Sought::WithId(id), 0) {
            None => state,
            Some(position) => {
                let connections = state.peers[i].connections;
                let left = connections.remove(position);
                State {
                    peers: if left.len() == 0 {
                        state.peers.remove(i)
                    } else {
                        state.peers.update(i, PeerView { peer, connections: left })
                    },
                    pending: match connections[position].ongoing_request {
                        Some(ongoing) => state.pending.push(
                            ActionView::GenerateEvent(
                                EventView::RequestCancelled {
                                    peer,
                                    original_request: ongoing.request,
                                    request_duration: elapsed_between(ongoing.emitted, now),
                                },
                            ),
                        ),
                        None => state.pending,
                    },
                    written: state.written,
                }
            },
        },
    }
}

/// The connection that a new request goes to: the first one with an
/// outstanding request, which the new one replaces, and else the first one.
pub open spec fn target_connection(connections: Seq<Connection>) -> int {
    match first_match(connections, Sought::Busy, 0) {
        Some(i) => i,
        None => 0,
    }
}

/// The wire value of a direction.
pub open spec fn direction_value(direction: Direction) -> i32 {
    match direction {
        Direction::Ascending => schema::ASCENDING,
        Direction::Descending => schema::DESCENDING,
    }
}

/// The protobuf message that carries the given request.
pub open spec fn built(
    attributes: BlockAttributes,
    from_block: FromBlock,
    to_block: Option<BlockHash>,
    direction: Direction,
    max_blocks: Option<u32>,
) -> schema::BlockRequestView {
    schema::BlockRequestView {
        fields: attributes.be_u32(),
        from_block: Some(
            match from_block {
                FromBlock::Hash(hash) => schema::FromBlockView::Hash(hash_encoding(hash)),
                FromBlock::Number(number) => schema::FromBlockView::Number(
                    number_encoding(number),
                ),
            },
        ),
        to_block: match to_block {
            Some(hash) => hash_encoding(hash),
            None => Seq::empty(),
        },
        direction: direction_value(direction),
        max_blocks: match max_blocks {
            Some(max) => max,
            None => 0,
        },
    }
}

/// The protobuf message that carries `request`.
pub open spec fn built_request(request: BlockRequest) -> schema::BlockRequestView {
    built(request.fields, request.from, request.to, request.direction, request.max)
}

/// Whether a request for `target` finds a connection to go to.
pub open spec fn can_send(state: State, target: Seq<u8>) -> bool {
    connections_of(state.peers, target).len() > 0
}

/// The state after `request` has been sent to `target` at `now`: the request
/// is outstanding on the target connection, in the place of any earlier one,
/// and the connection manager is told to open a substream for it. Nothing
/// changes where the peer is not connected.
pub open spec fn after_send(
    state: State,
    config: ConfigView,
    target: Seq<u8>,
    request: BlockRequest,
    now: Instant,
) -> State {
    if !can_send(state, target) {
        state
    } else {
        let i = peer_index(state.peers, target, 0).unwrap();
        let connections = state.peers[i].connections;
        let chosen = target_connection(connections);
        let connection = Connection {
            id: connections[chosen].id,
            ongoing_request: Some(
                OngoingRequest {
                    emitted: now,
                    request,
                    deadline: instant_after(now, config.request_timeout),
                },
            ),
        };
        State {
            peers: state.peers.update(
                i,
                PeerView { peer: target, connections: connections.update(chosen, connection) },
            ),
            pending: state.pending.push(
                ActionView::NotifyHandler {
                    peer_id: target,
                    connection: connections[chosen].id,
                    event: OutboundProtocolView {
                        request: built_request(request).encoding(),
                        original_request: request,
                        max_response_size: config.max_response_len,
                        protocol: config.protocol,
                    },
                },
            ),
            written: state.written,
        }
    }
}

/// What `send_request` tells its caller.
pub open spec fn send_outcome(state: State, target: Seq<u8>, now: Instant) -> SendRequestOutcome {
    if !can_send(state, target) {
        SendRequestOutcome::NotConnected
    } else {
        let connections = connections_of(state.peers, target);
        match connections[target_connection(connections)].ongoing_request {
            Some(previous) => SendRequestOutcome::Replaced {
                previous: previous.request,
                request_duration: elapsed_between(previous.emitted, now),
            },
            None => SendRequestOutcome::Sent,
        }
    }
}

/// The block that a record of a response stands for; `None` where its hash
/// is not well formed. The header is there where its bytes are; the body
/// where the request asked for one; the receipt and the message queue where
/// the bytes of the message queue are; the justification where its bytes are
/// or where the record says that it is empty.
pub open spec fn decoded_block(block: schema::BlockDataView, body_wanted: bool) -> Option<
    message::BlockDataView,
> {
    match hash_decoding(block.hash) {
        None => None,
        Some(hash) => Some(
            message::BlockDataView {
                hash,
                header: if block.header.len() > 0 {
                    Some(block.header)
                } else {
                    None
                },
                body: if body_wanted {
                    Some(block.body)
                } else {
                    None
                },
                receipt: if block.message_queue.len() > 0 {
                    Some(block.receipt)
                } else {
                    None
                },
                message_queue: if block.message_queue.len() > 0 {
                    Some(block.message_queue)
                } else {
                    None
                },
                justification: if block.justification.len() > 0 {
                    Some(block.justification)
                } else if block.is_empty_justification {
                    Some(Seq::empty())
                } else {
                    None
                },
            },
        ),
    }
}

/// The blocks that the records of a response stand for; `None` where one of
/// them is not well formed.
pub open spec fn decoded_blocks(blocks: Seq<schema::BlockDataView>, body_wanted: bool) -> Option<
    Seq<message::BlockDataView>,
> {
    if forall|i: int|
        0 <= i < blocks.len() ==> decoded_block(#[trigger] blocks[i], body_wanted) is Some {
        Some(Seq::new(blocks.len(), |i: int| decoded_block(blocks[i], body_wanted).unwrap()))
    } else {
        None
    }
}

/// Whether the response that came on connection `id` of `peer` answers the
/// request that is outstanding there.
pub open spec fn response_matches(
    state: State,
    peer: Seq<u8>,
    id: ConnectionId,
    original_request: BlockRequest,
) -> bool {
    let connections = connections_of(state.peers, peer);
    match first_match(connections, Sought::WithId(id), 0) {
        Some(position) => connections[position].ongoing_request is Some
            && connections[position].ongoing_request.unwrap().request == original_request,
        None => false,
    }
}

/// The state after a response has come on connection `id` of `peer` at
/// `now`. A response that answers the outstanding request clears it, and is
/// reported where all its blocks are well formed. Any other response changes
/// nothing.
pub open spec fn after_response(
    state: State,
    peer: Seq<u8>,
    id: ConnectionId,
    original_request: BlockRequest,
    response: schema::BlockResponseView,
    now: Instant,
) -> State {
    if !response_matches(state, peer, id, original_request) {
        state
    } else {
        let i = peer_index(state.peers, peer, 0).unwrap();
        let connections = state.peers[i].connections;
        let position = first_match(connections, Sought::WithId(id), 0).unwrap();
        let ongoing = connections[position].ongoing_request.unwrap();
        State {
            peers: state.peers.update(
                i,
                PeerView {
                    peer,
                    connections: connections.update(
                        position,
                        Connection { id: connections[position].id, ongoing_request: None },
                    ),
                },
            ),
            pending: match decoded_blocks(response.blocks, original_request.fields.has(BODY)) {
                Some(blocks) => state.pending.push(
                    ActionView::GenerateEvent(
                        EventView::Response {
                            peer,
                            original_request,
                            response: message::BlockResponseView {
                                id: original_request.id,
                                blocks,
                            },
                            request_duration: elapsed_between(ongoing.emitted, now),
                        },
                    ),
                ),
                None => state.pending,
            },
            written: state.written,
        }
    }
}

/// The state after a response to `peer` has been written, which took
/// `total_handling_time` from the arrival of the request: the response waits
/// to be reported.
pub open spec fn after_written(state: State, peer: Seq<u8>, total_handling_time: Duration) -> State {
    State { written: state.written.push(WrittenView { peer, total_handling_time }), ..state }
}

/// What `poll` hands out at `now`: the oldest waiting action; else the
/// timeout of the first request that has timed out; else the report of the
/// response that was written first; else nothing.
pub open spec fn poll_result(state: State, now: Instant) -> Option<ActionView> {
    if state.pending.len() > 0 {
        Some(state.pending[0])
    } else {
        match first_expired(state.peers, now, 0) {
            Some((i, j)) => {
                let ongoing = state.peers[i].connections[j].ongoing_request.unwrap();
                Some(
                    ActionView::GenerateEvent(
                        EventView::RequestTimeout {
                            peer: state.peers[i].peer,
                            original_request: ongoing.request,
                            request_duration: elapsed_between(ongoing.emitted, now),
                        },
                    ),
                )
            },
            None => if state.written.len() > 0 {
                Some(
                    ActionView::GenerateEvent(
                        EventView::AnsweredRequest {
                            peer: state.written[0].peer,
                            total_handling_time: state.written[0].total_handling_time,
                        },
                    ),
                )
            } else {
                None
            },
        }
    }
}

/// The state after `poll` at `now`: the action that was handed out has left
/// the queue, or the request that has timed out has left its connection, or
/// the response that was reported has left the written ones.
pub open spec fn after_poll(state: State, now: Instant) -> State {
    if state.pending.len() > 0 {
        State { pending: state.pending.subrange(1, state.pending.len() as int), ..state }
    } else {
        match first_expired(state.peers, now, 0) {
            Some((i, j)) => {
                let connections = state.peers[i].connections;
                State {
                    peers: state.peers.update(
                        i,
                        PeerView {
                            peer: state.peers[i].peer,
                            connections: connections.update(
                                j,
                                Connection { id: connections[j].id, ongoing_request: None },
                            ),
                        },
                    ),
                    ..state
                }
            },
            None => if state.written.len() > 0 {
                State { written: state.written.subrange(1, state.written.len() as int), ..state }
            } else {
                state
            },
        }
    }
}

/// Whether `data` is a response that a request gets on a node that serves
/// up to `cap` blocks: the encoding of the records that its walk comes to on
/// what the store gave; no more blocks than allowed, and none that says more
/// than was asked for.
pub open spec fn answers(request: schema::BlockRequestView, cap: u32, data: Seq<u8>) -> bool {
    exists|response: schema::BlockResponseView|
        {
            &&& data == #[trigger] response.encoding()
            &&& served(
                request,
                cap,
                Ok::<Seq<schema::BlockDataView>, crate::responder::RequestError>(response.blocks),
            )
            &&& response.blocks.len() <= effective_max(request.max_blocks, cap)
            &&& all_selective(
                crate::message::attributes_of(request.fields).unwrap(),
                response.blocks,
            )
        }
}

/// The request that the bytes received on an inbound substream carry.
pub open spec fn inbound_decoding(received: Seq<u8>, max: usize) -> Result<
    schema::BlockRequestView,
    UpgradeError,
> {
    match crate::framing::frame_decoding(received, max) {
        Err(error) => Err(UpgradeError::Read(error)),
        Ok((payload, _)) => match schema::request_decoding(payload) {
            Err(error) => Err(UpgradeError::Decode(error)),
            Ok(request) => Ok(request),
        },
    }
}

/// The response that the bytes received on an outbound substream carry.
pub open spec fn outbound_decoding(received: Seq<u8>, max: usize) -> Result<
    schema::BlockResponseView,
    UpgradeError,
> {
    match crate::framing::frame_decoding(received, max) {
        Err(error) => Err(UpgradeError::Read(error)),
        Ok((payload, _)) => match schema::response_decoding(payload) {
            Err(error) => Err(UpgradeError::Decode(error)),
            Ok(response) => Ok(response),
        },
    }
}

impl Config {
    /// A fresh configuration for the protocol family `id`: 128 blocks in a
    /// response, requests of up to 1 MiB, responses of up to 16 MiB, 15
    /// seconds of inactivity, 40 seconds for a request.
    pub fn new(id: &ProtocolId) -> (r: Config)
        ensures
            r@ == ConfigView::fresh(id.bytes@),
    {
        let mut c = Config {
            max_block_data_response: 128,
            max_request_len: 1024 * 1024,
            max_response_len: 16 * 1024 * 1024,
            inactivity_timeout: Duration::from_secs(15),
            request_timeout: Duration::from_secs(40),
            protocol: Vec::new(),
        };
        c.set_protocol(id);
        c
    }

    /// Limits the number of blocks in a response.
    pub fn set_max_block_data_response(&mut self, v: u32) -> (r: &mut Self)
        ensures
            *r == (Config { max_block_data_response: v, ..*old(self) }),
            *final(self) == *final(r),
    {
        self.max_block_data_response = v;
        self
    }

    /// Limits the length of an incoming request, in bytes.
    pub fn set_max_request_len(&mut self, v: usize) -> (r: &mut Self)
        ensures
            *r == (Config { max_request_len: v, ..*old(self) }),
            *final(self) == *final(r),
    {
        self.max_request_len = v;
        self
    }

    /// Limits the length of a response to one of our requests, in bytes.
    pub fn set_max_response_len(&mut self, v: usize) -> (r: &mut Self)
        ensures
            *r == (Config { max_response_len: v, ..*old(self) }),
            *final(self) == *final(r),
    {
        self.max_response_len = v;
        self
    }

    /// Limits the time that a substream may stay idle before it is closed.
    pub fn set_inactivity_timeout(&mut self, v: Duration) -> (r: &mut Self)
        ensures
            *r == (Config { inactivity_timeout: v, ..*old(self) }),
            *final(self) == *final(r),
    {
        self.inactivity_timeout = v;
        self
    }

    /// Sets the protocol name from the protocol family `id`.
    pub fn set_protocol(&mut self, id: &ProtocolId) -> (r: &mut Self)
        ensures
            r@ == (ConfigView { protocol: protocol_name_of(id.bytes@), ..old(self)@ }),
            *final(self) == *final(r),
    {
        let mut v: Vec<u8> = Vec::new();
        v.push(0x2f);
        crate::octets::append_bytes(&mut v, id.as_bytes());
        v.push(0x2f);
        v.push(0x73);
        v.push(0x79);
        v.push(0x6e);
        v.push(0x63);
        v.push(0x2f);
        v.push(0x32);
        assert(v@ =~= protocol_name_of(id.bytes@));
        self.protocol = v;
        self
    }
}

/// Builds the protobuf message that carries a request.
pub fn build_protobuf_block_request(
    attributes: BlockAttributes,
    from_block: FromBlock,
    to_block: Option<BlockHash>,
    direction: Direction,
    max_blocks: Option<u32>,
) -> (r: schema::BlockRequest)
    ensures
        r@ == built(attributes, from_block, to_block, direction, max_blocks),
{
    schema::BlockRequest {
        fields: attributes.to_be_u32(),
        from_block: match from_block {
            FromBlock::Hash(h) => Some(schema::FromBlock::Hash(encode_hash(&h))),
            FromBlock::Number(n) => Some(schema::FromBlock::Number(encode_number(n))),
        },
        to_block: match to_block {
            Some(h) => encode_hash(&h),
            None => Vec::new(),
        },
        direction: match direction {
            Direction::Ascending => schema::ASCENDING,
            Direction::Descending => schema::DESCENDING,
        },
        max_blocks: match max_blocks {
            Some(max) => max,
            None => 0,
        },
    }
}

/// Turns one record of a response into the block that it stands for.
pub fn decode_block_data(block: &schema::BlockData, body_wanted: bool) -> (r: Option<
    message::BlockData,
>)
    ensures
        match r {
            Some(decoded) => decoded_block(block@, body_wanted) == Some(decoded@),
            None => decoded_block(block@, body_wanted) is None,
        },
{
    let hash = match decode_hash(block.hash.as_slice()) {
        Ok(hash) => hash,
        Err(_) => {
            return None;
        },
    };
    let header = if block.header.len() > 0 {
        Some(copy_bytes(block.header.as_slice()))
    } else {
        None
    };
    let body = if body_wanted {
        Some(copy_byte_lists(&block.body))
    } else {
        None
    };
    let receipt = if block.message_queue.len() > 0 {
        Some(copy_bytes(block.receipt.as_slice()))
    } else {
        None
    };
    let message_queue = if block.message_queue.len() > 0 {
        Some(copy_bytes(block.message_queue.as_slice()))
    } else {
        None
    };
    let justification = if block.justification.len() > 0 {
        Some(copy_bytes(block.justification.as_slice()))
    } else if block.is_empty_justification {
        Some(Vec::new())
    } else {
        None
    };
    let decoded = message::BlockData { hash, header, body, receipt, message_queue, justification };
    proof {
        let expected = decoded_block(block@, body_wanted).unwrap();
        assert(decoded@.justification =~= expected.justification);
        assert(decoded@.body == expected.body);
    }
    Some(decoded)
}

/// Turns the records of a response into the blocks that they stand for.
pub fn decode_blocks(blocks: &Vec<schema::BlockData>, body_wanted: bool) -> (r: Option<
    Vec<message::BlockData>,
>)
    ensures
        match r {
            Some(decoded) => decoded_blocks(schema::block_views(blocks@), body_wanted) == Some(
                message::block_views(decoded@),
            ),
            None => decoded_blocks(schema::block_views(blocks@), body_wanted) is None,
        },
{
    let ghost records = schema::block_views(blocks@);
    let mut out: Vec<message::BlockData> = Vec::new();
    let mut i: usize = 0;
    while i < blocks.len()
        invariant
            i <= blocks@.len(),
            records == schema::block_views(blocks@),
            out@.len() == i,
            forall|j: int|
                0 <= j < i ==> decoded_block(#[trigger] records[j], body_wanted) == Some(
                    out@[j]@,
                ),
        decreases blocks@.len() - i,
    {
        match decode_block_data(&blocks[i], body_wanted) {
            Some(decoded) => {
                assert(records[i as int] == blocks@[i as int]@);
                out.push(decoded);
            },
            None => {
                assert(records[i as int] == blocks@[i as int]@);
                return None;
            },
        }
        i += 1;
    }
    assert(message::block_views(out@) =~= Seq::new(
        records.len(),
        |j: int| decoded_block(records[j], body_wanted).unwrap(),
    ));
    Some(out)
}

/// Whether `connection` is what is looked for.
fn is_sought(sought: Sought, connection: &Connection) -> (r: bool)
    ensures
        r == sought.found_in(*connection),
{
    match sought {
        Sought::Busy => connection.ongoing_request.is_some(),
        Sought::WithId(id) => connection.id == id,
        Sought::Expired(now) => match connection.ongoing_request {
            Some(ongoing) => ongoing.deadline.reached(now),
            None => false,
        },
    }
}

/// Finds the first connection that is looked for.
pub fn find_connection(connections: &Vec<Connection>, sought: Sought) -> (r: Option<usize>)
    ensures
        match r {
            Some(i) => first_match(connections@, sought, 0) == Some(i as int) && i
                < connections@.len(),
            None => first_match(connections@, sought, 0) is None,
        },
{
    let mut i: usize = 0;
    while i < connections.len()
        invariant
            i <= connections@.len(),
            first_match(connections@, sought, 0) == first_match(connections@, sought, i as int),
        decreases connections@.len() - i,
    {
        if is_sought(sought, &connections[i]) {
            return Some(i);
        }
        i += 1;
    }
    None
}

/// Finds the entry of `peer` in the table.
fn find_peer(peers: &Vec<PeerConnections>, peer: &PeerId) -> (r: Option<usize>)
    ensures
        match r {
            Some(i) => peer_index(peer_views(peers@), peer@, 0) == Some(i as int) && i
                < peers@.len() && peers@[i as int].peer@ == peer@,
            None => peer_index(peer_views(peers@), peer@, 0) is None,
        },
{
    let ghost views = peer_views(peers@);
    let mut i: usize = 0;
    while i < peers.len()
        invariant
            i <= peers@.len(),
            views == peer_views(peers@),
            peer_index(views, peer@, 0) == peer_index(views, peer@, i as int),
        decreases peers@.len() - i,
    {
        assert(views[i as int] == peers@[i as int]@);
        if peers[i].peer.same(peer) {
            return Some(i);
        }
        i += 1;
    }
    None
}

/// Finds the first connection of the table whose request has timed out.
fn find_expired(peers: &Vec<PeerConnections>, now: Instant) -> (r: Option<(usize, usize)>)
    ensures
        match r {
            Some((i, j)) => first_expired(peer_views(peers@), now, 0) == Some((i as int, j as int))
                && i < peers@.len() && j < peers@[i as int].connections@.len(),
            None => first_expired(peer_views(peers@), now, 0) is None,
        },
{
    let ghost views = peer_views(peers@);
    let mut i: usize = 0;
    while i < peers.len()
        invariant
            i <= peers@.len(),
            views == peer_views(peers@),
            first_expired(views, now, 0) == first_expired(views, now, i as int),
        decreases peers@.len() - i,
    {
        assert(views[i as int] == peers@[i as int]@);
        match find_connection(&peers[i].connections, Sought::Expired(now)) {
            Some(j) => {
                return Some((i, j));
            },
            None => {},
        }
        i += 1;
    }
    None
}

impl InboundProtocol {
    /// The name under which the protocol is negotiated.
    pub fn protocol_info(&self) -> (r: Vec<u8>)
        ensures
            r@ == self.protocol@,
    {
        copy_bytes(self.protocol.as_slice())
    }

    /// Takes the request out of the bytes that were received on an inbound
    /// substream, and hands it on with the substream, on which the response
    /// is to be written, and with the time of its arrival.
    pub fn upgrade_inbound<T>(&self, received: &[u8], substream: T, handling_start: Instant) -> (r:
        Result<NodeEvent<T>, UpgradeError>)
        ensures
            match r {
                Ok(NodeEvent::Request(request, stream, start)) => inbound_decoding(
                    received@,
                    self.max_request_len,
                ) == Ok::<schema::BlockRequestView, UpgradeError>(request@) && stream == substream
                    && start == handling_start,
                Ok(NodeEvent::Response(_, _)) => false,
                Err(error) => inbound_decoding(received@, self.max_request_len) == Err::<
                    schema::BlockRequestView,
                    UpgradeError,
                >(error),
            },
    {
        let (payload, _) = match read_one(received, self.max_request_len) {
            Ok(found) => found,
            Err(error) => {
                return Err(UpgradeError::Read(error));
            },
        };
        match schema::BlockRequest::decode(payload) {
            Ok(request) => Ok(NodeEvent::Request(request, substream, handling_start)),
            Err(error) => Err(UpgradeError::Decode(error)),
        }
    }
}

impl OutboundProtocol {
    /// The name under which the protocol is negotiated.
    pub fn protocol_info(&self) -> (r: Vec<u8>)
        ensures
            r@ == self.protocol@,
    {
        copy_bytes(self.protocol.as_slice())
    }

    /// The bytes to write on the outbound substream: the request as one message.
    pub fn outbound_message(&self) -> (r: Vec<u8>)
        ensures
            r@ == crate::framing::frame(self.request@),
    {
        write_one(self.request.as_slice())
    }

    /// Takes the response out of the bytes that were received on an outbound
    /// substream, and hands it on with the request that it answers.
    pub fn upgrade_outbound<T>(self, received: &[u8]) -> (r: Result<NodeEvent<T>, UpgradeError>)
        ensures
            match r {
                Ok(NodeEvent::Response(original, response)) => outbound_decoding(
                    received@,
                    self.max_response_size,
                ) == Ok::<schema::BlockResponseView, UpgradeError>(response@) && original
                    == self.original_request,
                Ok(NodeEvent::Request(_, _, _)) => false,
                Err(error) => outbound_decoding(received@, self.max_response_size) == Err::<
                    schema::BlockResponseView,
                    UpgradeError,
                >(error),
            },
    {
        let (payload, _) = match read_one(received, self.max_response_size) {
            Ok(found) => found,
            Err(error) => {
                return Err(UpgradeError::Read(error));
            },
        };
        match schema::BlockResponse::decode(payload) {
            Ok(response) => Ok(NodeEvent::Response(self.original_request, response)),
            Err(error) => Err(UpgradeError::Decode(error)),
        }
    }
}

/// A response that has been written.
#[derive(Debug, PartialEq, Eq)]
pub struct Written {
    /// The peer that asked.
    pub peer: PeerId,
    /// The time from the arrival of the request to the end of the write.
    pub total_handling_time: Duration,
}

impl View for Written {
    type V = WrittenView;

    open spec fn view(&self) -> WrittenView {
        WrittenView { peer: self.peer@, total_handling_time: self.total_handling_time }
    }
}

/// The written responses of a queue, each by its content.
pub open spec fn written_views(written: Seq<Written>) -> Seq<WrittenView> {
    Seq::new(written.len(), |i: int| written[i]@)
}

/// The block request handling behaviour.
pub struct BlockRequests<C> {
    /// The configuration of the behaviour.
    config: Config,
    /// The local block store.
    chain: C,
    /// The connected peers, with their connections and outstanding requests.
    peers: Vec<PeerConnections>,
    /// The actions to hand out from `poll`, oldest first.
    pending_events: VecDeque<Action>,
    /// The responses that have been written and not been reported, oldest first.
    outgoing: VecDeque<Written>,
}

impl<C> View for BlockRequests<C> {
    type V = State;

    closed spec fn view(&self) -> State {
        State {
            peers: peer_views(self.peers@),
            pending: action_views(self.pending_events@),
            written: written_views(self.outgoing@),
        }
    }
}

/// Replacing an entry of the table replaces its content in the table's content.
proof fn lemma_peer_views_update(peers: Seq<PeerConnections>, i: int, entry: PeerConnections)
    requires
        0 <= i < peers.len(),
    ensures
        peer_views(peers.remove(i).insert(i, entry)) == peer_views(peers).update(i, entry@),
        peer_views(peers.remove(i)) == peer_views(peers).remove(i),
        peers.remove(i).len() == peers.len() - 1,
{
    assert(peer_views(peers.remove(i).insert(i, entry)) =~= peer_views(peers).update(i, entry@));
    assert(peer_views(peers.remove(i)) =~= peer_views(peers).remove(i));
}

impl<C: Client> BlockRequests<C> {
    /// The configuration of the behaviour.
    pub closed spec fn settings(&self) -> ConfigView {
        self.config@
    }

    /// A behaviour with no peers and nothing to hand out.
    pub fn new(cfg: Config, chain: C) -> (r: Self)
        ensures
            r@.peers == Seq::<PeerView>::empty(),
            r@.pending == Seq::<ActionView>::empty(),
            r@.written == Seq::<WrittenView>::empty(),
            r@.wf(),
            r.settings() == cfg@,
    {
        let r = BlockRequests {
            config: cfg,
            chain,
            peers: Vec::new(),
            pending_events: VecDeque::new(),
            outgoing: VecDeque::new(),
        };
        assert(r@.peers =~= Seq::<PeerView>::empty());
        assert(r@.pending =~= Seq::<ActionView>::empty());
        assert(r@.written =~= Seq::<WrittenView>::empty());
        r
    }

    /// The name under which the protocol is negotiated, such as `/foo/sync/2`.
    pub fn protocol_name(&self) -> (r: &[u8])
        ensures
            r@ == self.settings().protocol,
    {
        self.config.protocol.as_slice()
    }

    /// How each connection is to be handled: which protocol runs on its
    /// inbound substreams, and how long it and its substreams may take.
    pub fn new_handler(&self) -> (r: HandlerConfig)
        ensures
            r.inbound.max_request_len == self.settings().max_request_len,
            r.inbound.protocol@ == self.settings().protocol,
            r.inactive_timeout == self.settings().inactivity_timeout,
            r.substream_timeout == self.settings().request_timeout,
    {
        HandlerConfig {
            inbound: InboundProtocol {
                max_request_len: self.config.max_request_len,
                protocol: copy_bytes(self.config.protocol.as_slice()),
            },
            inactive_timeout: self.config.inactivity_timeout,
            substream_timeout: self.config.request_timeout,
        }
    }

    /// Issues a request to `target` at `now`.
    ///
    /// The request goes to the connection of the peer that has a request
    /// outstanding, which it replaces, and else to the peer's first
    /// connection. It times out after the configured time.
    pub fn send_request(&mut self, target: &PeerId, req: BlockRequest, now: Instant) -> (r:
        SendRequestOutcome)
        ensures
            final(self)@ == after_send(old(self)@, old(self).settings(), target@, req, now),
            r == send_outcome(old(self)@, target@, now),
            final(self).settings() == old(self).settings(),
            old(self)@.wf() ==> final(self)@.wf(),
    {
        proof {
            if self@.wf() {
                lemma_send_keeps_wf(self@, self.settings(), target@, req, now);
            }
        }
        let i = match find_peer(&self.peers, target) {
            Some(i) => i,
            None => {
                return SendRequestOutcome::NotConnected;
            },
        };
        assert(peer_views(self.peers@)[i as int] == self.peers@[i as int]@);
        if self.peers[i].connections.len() == 0 {
            return SendRequestOutcome::NotConnected;
        }
        let chosen = match find_connection(&self.peers[i].connections, Sought::Busy) {
            Some(chosen) => chosen,
            None => 0,
        };
        let protobuf_rq = build_protobuf_block_request(
            req.fields,
            req.from,
            req.to,
            req.direction,
            req.max,
        );
        let buf = protobuf_rq.encode_to_vec();
        let mut entry = self.peers.remove(i);
        let previous = entry.connections[chosen];
        let connection = Connection {
            id: previous.id,
            ongoing_request: Some(
                OngoingRequest {
                    emitted: now,
                    request: req,
                    deadline: now.plus(self.config.request_timeout),
                },
            ),
        };
        entry.connections.set(chosen, connection);
        proof {
            lemma_peer_views_update(old(self).peers@, i as int, entry);
        }
        self.peers.insert(i, entry);
        let action = Action::NotifyHandler {
            peer_id: target.clone(),
            connection: previous.id,
            event: OutboundProtocol {
                request: buf,
                original_request: req,
                max_response_size: self.config.max_response_len,
                protocol: copy_bytes(self.config.protocol.as_slice()),
            },
        };
        let ghost pushed = action@;
        self.pending_events.push_back(action);
        assert(action_views(self.pending_events@) =~= action_views(old(self).pending_events@).push(
            pushed,
        ));
        match previous.ongoing_request {
            Some(ongoing) => SendRequestOutcome::Replaced {
                previous: ongoing.request,
                request_duration: ongoing.emitted.elapsed(now),
            },
            None => SendRequestOutcome::Sent,
        }
    }

    /// Answers a request of a remote peer from the local chain.
    pub fn on_block_request(&self, peer: &PeerId, request: &schema::BlockRequest) -> (r: Result<
        schema::BlockResponse,
        crate::responder::RequestError,
    >)
        ensures
            served(request@, self.settings().max_block_data_response, records_of(r)),
            match r {
                Ok(response) => {
                    &&& request_error(request@) is None
                    &&& response@.blocks.len() <= effective_max(
                        request.max_blocks,
                        self.settings().max_block_data_response,
                    )
                    &&& all_selective(
                        crate::message::attributes_of(request.fields).unwrap(),
                        response@.blocks,
                    )
                },
                Err(error) => match request_error(request@) {
                    Some(expected) => error == expected,
                    None => {
                        &&& error is Client
                        &&& effective_max(
                            request.max_blocks,
                            self.settings().max_block_data_response,
                        ) > 0
                        &&& crate::message::attributes_of(request.fields).unwrap().has(
                            crate::message::JUSTIFICATION,
                        ) || crate::message::attributes_of(request.fields).unwrap().has(BODY)
                    },
                },
            },
    {
        serve_request(&self.chain, self.config.max_block_data_response, request)
    }

    /// Records a connection to `peer_id` that has been established.
    pub fn inject_connection_established(&mut self, peer_id: &PeerId, id: &ConnectionId)
        ensures
            final(self)@ == after_established(old(self)@, peer_id@, *id),
            final(self).settings() == old(self).settings(),
            old(self)@.wf() ==> final(self)@.wf(),
    {
        proof {
            if self@.wf() {
                lemma_established_keeps_wf(self@, peer_id@, *id);
            }
        }
        let connection = Connection { id: *id, ongoing_request: None };
        match find_peer(&self.peers, peer_id) {
            Some(i) => {
                assert(peer_views(self.peers@)[i as int] == self.peers@[i as int]@);
                let mut entry = self.peers.remove(i);
                entry.connections.push(connection);
                proof {
                    lemma_peer_views_update(old(self).peers@, i as int, entry);
                }
                self.peers.insert(i, entry);
            },
            None => {
                let mut connections: Vec<Connection> = Vec::new();
                connections.push(connection);
                let entry = PeerConnections { peer: peer_id.clone(), connections };
                let ghost content = entry@;
                self.peers.push(entry);
                assert(content.connections =~= seq![connection]);
                assert(peer_views(self.peers@) =~= peer_views(old(self).peers@).push(content));
            },
        }
    }

    /// Records that the connection `id` of `peer_id` has closed at `now`.
    pub fn inject_connection_closed(&mut self, peer_id: &PeerId, id: &ConnectionId, now: Instant)
        ensures
            final(self)@ == after_closed(old(self)@, peer_id@, *id, now),
            final(self).settings() == old(self).settings(),
            old(self)@.wf() ==> final(self)@.wf(),
    {
        proof {
            if self@.wf() {
                lemma_closed_keeps_wf(self@, peer_id@, *id, now);
            }
        }
        let i = match find_peer(&self.peers, peer_id) {
            Some(i) => i,
            None => {
                return ;
            },
        };
        assert(peer_views(self.peers@)[i as int] == self.peers@[i as int]@);
        let position = match find_connection(&self.peers[i].connections, Sought::WithId(*id)) {
            Some(position) => position,
            None => {
                return ;
            },
        };
        let mut entry = self.peers.remove(i);
        let connection = entry.connections.remove(position);
        proof {
            lemma_peer_views_update(old(self).peers@, i as int, entry);
        }
        if entry.connections.len() > 0 {
            self.peers.insert(i, entry);
        }
        match connection.ongoing_request {
            Some(ongoing) => {
                let action = Action::GenerateEvent(
                    Event::RequestCancelled {
                        peer: peer_id.clone(),
                        original_request: ongoing.request,
                        request_duration: ongoing.emitted.elapsed(now),
                    },
                );
                let ghost pushed = action@;
                self.pending_events.push_back(action);
                assert(action_views(self.pending_events@) =~= action_views(
                    old(self).pending_events@,
                ).push(pushed));
            },
            None => {},
        }
    }

    /// Takes the response that came on connection `connection_id` of `peer`
    /// at `now`.
    pub fn on_response(
        &mut self,
        peer: PeerId,
        connection_id: ConnectionId,
        original_request: BlockRequest,
        response: schema::BlockResponse,
        now: Instant,
    )
        ensures
            final(self)@ == after_response(
                old(self)@,
                peer@,
                connection_id,
                original_request,
                response@,
                now,
            ),
            final(self).settings() == old(self).settings(),
            old(self)@.wf() ==> final(self)@.wf(),
    {
        proof {
            if self@.wf() {
                lemma_response_keeps_wf(
                    self@,
                    peer@,
                    connection_id,
                    original_request,
                    response@,
                    now,
                );
            }
        }
        let i = match find_peer(&self.peers, &peer) {
            Some(i) => i,
            None => {
                return ;
            },
        };
        assert(peer_views(self.peers@)[i as int] == self.peers@[i as int]@);
        let position = match find_connection(
            &self.peers[i].connections,
            Sought::WithId(connection_id),
        ) {
            Some(position) => position,
            None => {
                return ;
            },
        };
        let connection = self.peers[i].connections[position];
        let ongoing = match connection.ongoing_request {
            Some(ongoing) => ongoing,
            None => {
                return ;
            },
        };
        if !ongoing.request.same(&original_request) {
            return ;
        }
        let request_duration = ongoing.emitted.elapsed(now);
        let mut entry = self.peers.remove(i);
        entry.connections.set(position, Connection { id: connection.id, ongoing_request: None });
        proof {
            lemma_peer_views_update(old(self).peers@, i as int, entry);
        }
        self.peers.insert(i, entry);
        match decode_blocks(&response.blocks, original_request.fields.contains(BODY)) {
            Some(blocks) => {
                let action = Action::GenerateEvent(
                    Event::Response {
                        peer,
                        original_request,
                        response: message::BlockResponse { id: original_request.id, blocks },
                        request_duration,
                    },
                );
                let ghost pushed = action@;
                self.pending_events.push_back(action);
                assert(action_views(self.pending_events@) =~= action_views(
                    old(self).pending_events@,
                ).push(pushed));
            },
            None => {},
        }
    }

    /// Answers the request that came from `peer`: the response, ready to be
    /// written to the substream of the request. `None` where the request gets
    /// no response.
    pub fn on_request<T>(
        &self,
        peer: PeerId,
        request: &schema::BlockRequest,
        substream: T,
        handling_start: Instant,
    ) -> (r: Option<OutgoingResponse<T>>)
        ensures
            match r {
                Some(outgoing) => {
                    &&& outgoing.peer@ == peer@
                    &&& outgoing.substream == substream
                    &&& outgoing.handling_start == handling_start
                    &&& request_error(request@) is None
                    &&& answers(request@, self.settings().max_block_data_response, outgoing.data@)
                },
                None => {
                    ||| request_error(request@) is Some
                    ||| effective_max(request.max_blocks, self.settings().max_block_data_response)
                        > 0 && (crate::message::attributes_of(request.fields).unwrap().has(
                        crate::message::JUSTIFICATION,
                    ) || crate::message::attributes_of(request.fields).unwrap().has(BODY))
                },
            },
    {
        match self.on_block_request(&peer, request) {
            Ok(response) => {
                let data = response.encode_to_vec();
                assert(data@ == response@.encoding());
                Some(OutgoingResponse { peer, substream, data, handling_start })
            },
            Err(_) => None,
        }
    }

    /// Takes what a substream of connection `connection_id` of `peer` has
    /// brought at `now`: a request is answered, and the answer handed back
    /// for writing; a response is matched with the outstanding request.
    pub fn inject_event<T>(
        &mut self,
        peer: PeerId,
        connection_id: ConnectionId,
        node_event: NodeEvent<T>,
        now: Instant,
    ) -> (r: Option<OutgoingResponse<T>>)
        ensures
            final(self).settings() == old(self).settings(),
            old(self)@.wf() ==> final(self)@.wf(),
            match node_event {
                NodeEvent::Request(request, substream, handling_start) => {
                    &&& final(self)@ == old(self)@
                    &&& match r {
                        Some(outgoing) => {
                            &&& outgoing.peer@ == peer@
                            &&& outgoing.substream == substream
                            &&& outgoing.handling_start == handling_start
                            &&& request_error(request@) is None
                            &&& answers(
                                request@,
                                old(self).settings().max_block_data_response,
                                outgoing.data@,
                            )
                        },
                        None => {
                            ||| request_error(request@) is Some
                            ||| effective_max(
                                request.max_blocks,
                                old(self).settings().max_block_data_response,
                            ) > 0 && (crate::message::attributes_of(request.fields).unwrap().has(
                                crate::message::JUSTIFICATION,
                            ) || crate::message::attributes_of(request.fields).unwrap().has(BODY))
                        },
                    }
                },
                NodeEvent::Response(original_request, response) => {
                    &&& r is None
                    &&& final(self)@ == after_response(
                        old(self)@,
                        peer@,
                        connection_id,
                        original_request,
                        response@,
                        now,
                    )
                },
            },
    {
        match node_event {
            NodeEvent::Request(request, substream, handling_start) => self.on_request(
                peer,
                &request,
                substream,
                handling_start,
            ),
            NodeEvent::Response(original_request, response) => {
                self.on_response(peer, connection_id, original_request, response, now);
                None
            },
        }
    }

    /// The next action for the connection manager at `now`: the oldest
    /// waiting action; else the timeout of the first request that has timed
    /// out, which leaves its connection; else the report of the response that
    /// was written first; else nothing.
    pub fn poll(&mut self, now: Instant) -> (r: PollResult)
        ensures
            final(self)@ == after_poll(old(self)@, now),
            final(self).settings() == old(self).settings(),
            old(self)@.wf() ==> final(self)@.wf(),
            match r {
                PollResult::Ready(action) => poll_result(old(self)@, now) == Some(action@),
                PollResult::Pending => poll_result(old(self)@, now) is None,
            },
    {
        proof {
            if self@.wf() {
                lemma_poll_keeps_wf(self@, now);
            }
        }
        match self.pending_events.pop_front() {
            Some(action) => {
                assert(action_views(self.pending_events@) =~= action_views(
                    old(self).pending_events@,
                ).subrange(1, old(self).pending_events@.len() as int));
                assert(action_views(old(self).pending_events@)[0] == action@);
                return PollResult::Ready(action);
            },
            None => {
                assert(action_views(self.pending_events@) =~= action_views(
                    old(self).pending_events@,
                ));
            },
        }
        let (i, j) = match find_expired(&self.peers, now) {
            Some(found) => found,
            None => {
                return match self.outgoing.pop_front() {
                    Some(written) => {
                        assert(written_views(self.outgoing@) =~= written_views(
                            old(self).outgoing@,
                        ).subrange(1, old(self).outgoing@.len() as int));
                        assert(written_views(old(self).outgoing@)[0] == written@);
                        PollResult::Ready(
                            Action::GenerateEvent(
                                Event::AnsweredRequest {
                                    peer: written.peer,
                                    total_handling_time: written.total_handling_time,
                                },
                            ),
                        )
                    },
                    None => {
                        assert(written_views(self.outgoing@) =~= written_views(
                            old(self).outgoing@,
                        ));
                        PollResult::Pending
                    },
                };
            },
        };
        assert(peer_views(self.peers@)[i as int] == self.peers@[i as int]@);
        proof {
            lemma_first_expired(peer_views(self.peers@), now, 0);
        }
        let connection = self.peers[i].connections[j];
        let ongoing = match connection.ongoing_request {
            Some(ongoing) => ongoing,
            None => {
                return PollResult::Pending;
            },
        };
        let mut entry = self.peers.remove(i);
        entry.connections.set(j, Connection { id: connection.id, ongoing_request: None });
        let peer = entry.peer.clone();
        proof {
            lemma_peer_views_update(old(self).peers@, i as int, entry);
        }
        self.peers.insert(i, entry);
        PollResult::Ready(
            Action::GenerateEvent(
                Event::RequestTimeout {
                    peer,
                    original_request: ongoing.request,
                    request_duration: ongoing.emitted.elapsed(now),
                },
            ),
        )
    }

    /// Records that the response to a request of `peer` has been written,
    /// which took `total_handling_time` from the arrival of the request.
    pub fn inject_response_written(&mut self, peer: PeerId, total_handling_time: Duration)
        ensures
            final(self)@ == after_written(old(self)@, peer@, total_handling_time),
            final(self).settings() == old(self).settings(),
            old(self)@.wf() ==> final(self)@.wf(),
    {
        let written = Written { peer, total_handling_time };
        let ghost pushed = written@;
        self.outgoing.push_back(written);
        assert(written_views(self.outgoing@) =~= written_views(old(self).outgoing@).push(pushed));
    }
}

} // verus!
