//! What holds of the protocol as a whole: laws that relate the functions of
//! the other modules to each other, each proved from their definitions.

use vstd::prelude::*;
use crate::behaviour::{
    after_closed, after_established, after_poll, after_response, after_send, built_request,
    can_send, connections_of, decoded_block, first_expired, first_match, inbound_decoding,
    lemma_first_expired, lemma_first_match, lemma_peer_index, outbound_decoding, peer_index,
    poll_result, response_matches, send_outcome, target_connection, ActionView, ConfigView,
    single_flight, Connection, EventView, OngoingRequest, PeerView, SendRequestOutcome, Sought,
    State, UpgradeError,
};
use crate::chain::{BlockId, HeaderView};
use crate::framing::{frame, lemma_frame_round_trip, lemma_frame_too_large, ReadOneError};
use crate::message::{
    attributes_of, lemma_attributes_round_trip, BlockAttributes, BlockRequest, FromBlock, BODY,
    HEADER, JUSTIFICATION,
};
use crate::message::Direction;
use crate::responder::{
    bytes_given, bytes_or_empty, direction_of, effective_max, items_given, outcome, record,
    request_error, selective, started, starts_at, stepped, walked, Answers, RequestError,
    WalkState,
};
use crate::scale::{lemma_hash_round_trip, lemma_number_round_trip};
use crate::schema;
use crate::types::{elapsed_between, instant_after, ConnectionId, Instant};
use crate::wire::WireError;

verus! {

/// A response never has room for more blocks than the node serves, nor for
/// more than the request asks for where it names a number.
pub proof fn lemma_effective_max_bounds(max_blocks: u32, cap: u32)
    ensures
        effective_max(max_blocks, cap) <= cap,
        max_blocks > 0 ==> effective_max(max_blocks, cap) <= max_blocks,
        max_blocks == 0 ==> effective_max(max_blocks, cap) == cap,
{
}

/// The message built for a request decodes, from its encoding, to itself.
pub proof fn lemma_built_request_round_trip(request: BlockRequest)
    ensures
        schema::request_decoding(built_request(request).encoding()) == Ok::<
            schema::BlockRequestView,
            WireError,
        >(built_request(request)),
{
    match request.from {
        FromBlock::Hash(hash) => {
            lemma_hash_round_trip(hash, Seq::empty());
        },
        FromBlock::Number(number) => {
            lemma_number_round_trip(number, Seq::empty());
        },
    }
    if request.to is Some {
        lemma_hash_round_trip(request.to.unwrap(), Seq::empty());
    }
    schema::lemma_request_round_trip(built_request(request));
}

/// The responder reads out of the message built for a request what the
/// requester put in: the start block, the direction, the attributes, and the
/// number of blocks.
pub proof fn lemma_built_request_understood(request: BlockRequest, cap: u32)
    requires
        request.fields.valid(),
    ensures
        request_error(built_request(request)) is None,
        starts_at(
            built_request(request).from_block,
            match request.from {
                FromBlock::Hash(hash) => BlockId::Hash(hash),
                FromBlock::Number(number) => BlockId::Number(number),
            },
        ),
        direction_of(built_request(request).direction) == Some(request.direction),
        attributes_of(built_request(request).fields) == Some(request.fields),
        effective_max(built_request(request).max_blocks, cap) == match request.max {
            Some(max) => effective_max(max, cap),
            None => cap,
        },
{
    lemma_attributes_round_trip(request.fields);
    match request.from {
        FromBlock::Hash(hash) => {
            lemma_hash_round_trip(hash, Seq::empty());
            assert(crate::scale::hash_encoding(hash) + Seq::<u8>::empty()
                =~= crate::scale::hash_encoding(hash));
        },
        FromBlock::Number(number) => {
            lemma_number_round_trip(number, Seq::empty());
            assert(crate::scale::number_encoding(number) + Seq::<u8>::empty()
                =~= crate::scale::number_encoding(number));
        },
    }
}

/// What a request does not ask for is absent from the block that a record
/// stands for; a receipt and a message queue are never there.
pub proof fn lemma_unrequested_parts_absent(
    attributes: BlockAttributes,
    block: schema::BlockDataView,
)
    requires
        selective(attributes, block),
    ensures
        decoded_block(block, attributes.has(BODY)) is Some,
        !attributes.has(HEADER) ==> decoded_block(block, attributes.has(BODY)).unwrap().header
            is None,
        !attributes.has(BODY) ==> decoded_block(block, attributes.has(BODY)).unwrap().body
            is None,
        !attributes.has(JUSTIFICATION) ==> decoded_block(
            block,
            attributes.has(BODY),
        ).unwrap().justification is None,
        decoded_block(block, attributes.has(BODY)).unwrap().receipt is None,
        decoded_block(block, attributes.has(BODY)).unwrap().message_queue is None,
{
}

/// The requester finds in a record what the responder put in: the hash of
/// the block, its header and body where they were asked for, and its
/// justification as it was: missing, empty, or with its bytes.
pub proof fn lemma_record_understood(
    attributes: BlockAttributes,
    header: HeaderView,
    justification: Option<Seq<u8>>,
    body: Option<Seq<Seq<u8>>>,
)
    ensures
        decoded_block(
            record(attributes, header, justification, body),
            attributes.has(BODY),
        ) is Some,
        decoded_block(
            record(attributes, header, justification, body),
            attributes.has(BODY),
        ).unwrap().hash == header.hash.bytes@,
        attributes.has(HEADER) && header.encoded.len() > 0 ==> decoded_block(
            record(attributes, header, justification, body),
            attributes.has(BODY),
        ).unwrap().header == Some(header.encoded),
        attributes.has(BODY) && body is Some ==> decoded_block(
            record(attributes, header, justification, body),
            attributes.has(BODY),
        ).unwrap().body == body,
        attributes.has(JUSTIFICATION) ==> decoded_block(
            record(attributes, header, justification, body),
            attributes.has(BODY),
        ).unwrap().justification == justification,
{
    lemma_hash_round_trip(header.hash, Seq::empty());
    let block = record(attributes, header, justification, body);
    assert(block.hash.take(32) =~= header.hash.bytes@);
    if attributes.has(JUSTIFICATION) {
        match justification {
            Some(bytes) => {
                if bytes.len() == 0 {
                    assert(bytes =~= Seq::<u8>::empty());
                }
            },
            None => {},
        }
    }
}

/// A justification that exists and is empty reaches the requester as one
/// that exists and is empty, through the record and its encoding.
pub proof fn lemma_empty_justification_preserved(
    attributes: BlockAttributes,
    header: HeaderView,
    body: Option<Seq<Seq<u8>>>,
)
    requires
        attributes.has(JUSTIFICATION),
        record(attributes, header, Some(Seq::empty()), body).bounded(),
    ensures
        record(attributes, header, Some(Seq::empty()), body).is_empty_justification,
        schema::block_decoding(record(attributes, header, Some(Seq::empty()), body).encoding())
            == Ok::<schema::BlockDataView, WireError>(
            record(attributes, header, Some(Seq::empty()), body),
        ),
        decoded_block(
            record(attributes, header, Some(Seq::empty()), body),
            attributes.has(BODY),
        ).unwrap().justification == Some(Seq::<u8>::empty()),
        decoded_block(
            record(attributes, header, None, body),
            attributes.has(BODY),
        ).unwrap().justification is None,
{
    schema::lemma_block_round_trip(record(attributes, header, Some(Seq::empty()), body));
    lemma_record_understood(attributes, header, Some(Seq::empty()), body);
    lemma_record_understood(attributes, header, None, body);
}

/// A response that does not answer the request outstanding on its
/// connection changes nothing and is not reported: neither one for a peer or
/// a connection that is not known, nor one on a connection without a
/// request, nor one to another request than the outstanding one.
pub proof fn lemma_unmatched_response_ignored(
    state: State,
    peer: Seq<u8>,
    id: ConnectionId,
    original_request: BlockRequest,
    response: schema::BlockResponseView,
    now: Instant,
)
    requires
        !response_matches(state, peer, id, original_request),
    ensures
        after_response(state, peer, id, original_request, response, now) == state,
{
}

/// A response to an earlier request than the outstanding one is not
/// reported, and the outstanding one stays.
pub proof fn lemma_obsolete_response_ignored(
    state: State,
    peer: Seq<u8>,
    id: ConnectionId,
    outstanding: BlockRequest,
    obsolete: BlockRequest,
    response: schema::BlockResponseView,
    now: Instant,
)
    requires
        response_matches(state, peer, id, outstanding),
        obsolete != outstanding,
    ensures
        after_response(state, peer, id, obsolete, response, now) == state,
{
}

/// A response that answers the outstanding request clears it; it is
/// reported, once, where its blocks are well formed, and else not at all.
pub proof fn lemma_matched_response_reported(
    state: State,
    peer: Seq<u8>,
    id: ConnectionId,
    original_request: BlockRequest,
    response: schema::BlockResponseView,
    now: Instant,
)
    requires
        response_matches(state, peer, id, original_request),
    ensures
        !response_matches(
            after_response(state, peer, id, original_request, response, now),
            peer,
            id,
            original_request,
        ),
        crate::behaviour::decoded_blocks(response.blocks, original_request.fields.has(BODY))
            is Some ==> after_response(
            state,
            peer,
            id,
            original_request,
            response,
            now,
        ).pending.len() == state.pending.len() + 1 && after_response(
            state,
            peer,
            id,
            original_request,
            response,
            now,
        ).pending.last() is GenerateEvent,
        crate::behaviour::decoded_blocks(response.blocks, original_request.fields.has(BODY))
            is None ==> after_response(state, peer, id, original_request, response, now).pending
            == state.pending,
{
    lemma_peer_index(state.peers, peer, 0);
    let i = peer_index(state.peers, peer, 0).unwrap();
    let connections = state.peers[i].connections;
    lemma_first_match(connections, Sought::WithId(id), 0);
    let position = first_match(connections, Sought::WithId(id), 0).unwrap();
    let cleared = connections.update(
        position,
        Connection { id: connections[position].id, ongoing_request: None },
    );
    lemma_peer_index_after_update(state.peers, peer, i, cleared);
    lemma_first_match_same_ids(connections, cleared, id, 0);
}

/// Replacing the connections of a peer leaves every peer where it is in the
/// table.
pub proof fn lemma_peer_index_after_update(
    peers: Seq<PeerView>,
    peer: Seq<u8>,
    i: int,
    connections: Seq<Connection>,
)
    requires
        0 <= i < peers.len(),
    ensures
        forall|other: Seq<u8>|
            peer_index(
                peers.update(i, PeerView { peer: peers[i].peer, connections }),
                other,
                0,
            ) == #[trigger] peer_index(peers, other, 0),
{
    let updated = peers.update(i, PeerView { peer: peers[i].peer, connections });
    assert forall|other: Seq<u8>|
        peer_index(updated, other, 0) == #[trigger] peer_index(peers, other, 0) by {
        lemma_peer_index_same_names(peers, updated, other, 0);
    }
}

/// Two tables with the same peers in the same places find every peer at the
/// same place.
pub proof fn lemma_peer_index_same_names(
    a: Seq<PeerView>,
    b: Seq<PeerView>,
    peer: Seq<u8>,
    from: int,
)
    requires
        0 <= from,
        a.len() == b.len(),
        forall|k: int| 0 <= k < a.len() ==> (#[trigger] a[k]).peer == b[k].peer,
    ensures
        peer_index(a, peer, from) == peer_index(b, peer, from),
    decreases a.len() - from,
{
    if from < a.len() {
        assert(a[from].peer == b[from].peer);
        if a[from].peer != peer {
            lemma_peer_index_same_names(a, b, peer, from + 1);
        }
    }
}

/// Two lists with the same identities in the same places find every
/// identity at the same place.
pub proof fn lemma_first_match_same_ids(
    a: Seq<Connection>,
    b: Seq<Connection>,
    id: ConnectionId,
    from: int,
)
    requires
        0 <= from,
        a.len() == b.len(),
        forall|k: int| 0 <= k < a.len() ==> (#[trigger] a[k]).id == b[k].id,
    ensures
        first_match(a, Sought::WithId(id), from) == first_match(b, Sought::WithId(id), from),
    decreases a.len() - from,
{
    if from < a.len() {
        assert(a[from].id == b[from].id);
        if a[from].id != id {
            lemma_first_match_same_ids(a, b, id, from + 1);
        }
    }
}

/// A request sent to a peer that has one outstanding takes its place: the
/// caller is told which request was replaced, the connection manager is told
/// to open a substream, and nothing else is handed out; in particular the
/// replaced request is not reported as cancelled.
pub proof fn lemma_send_replaces(
    state: State,
    config: ConfigView,
    target: Seq<u8>,
    request: BlockRequest,
    now: Instant,
)
    requires
        first_match(connections_of(state.peers, target), Sought::Busy, 0) is Some,
    ensures
        send_outcome(state, target, now) is Replaced,
        send_outcome(state, target, now)->previous == connections_of(
            state.peers,
            target,
        )[target_connection(
            connections_of(state.peers, target),
        )].ongoing_request.unwrap().request,
        after_send(state, config, target, request, now).pending.len() == state.pending.len() + 1,
        after_send(state, config, target, request, now).pending.drop_last() == state.pending,
        after_send(state, config, target, request, now).pending.last() is NotifyHandler,
        connections_of(after_send(state, config, target, request, now).peers, target)
            == connections_of(state.peers, target).update(
            target_connection(connections_of(state.peers, target)),
            Connection {
                id: connections_of(state.peers, target)[target_connection(
                    connections_of(state.peers, target),
                )].id,
                ongoing_request: Some(
                    OngoingRequest {
                        emitted: now,
                        request,
                        deadline: instant_after(now, config.request_timeout),
                    },
                ),
            },
        ),
{
    let connections = connections_of(state.peers, target);
    lemma_first_match(connections, Sought::Busy, 0);
    lemma_peer_index(state.peers, target, 0);
    let next = after_send(state, config, target, request, now);
    assert(next.pending.drop_last() =~= state.pending);
    let i = peer_index(state.peers, target, 0).unwrap();
    let chosen = target_connection(connections);
    let connection = Connection {
        id: connections[chosen].id,
        ongoing_request: Some(
            OngoingRequest {
                emitted: now,
                request,
                deadline: instant_after(now, config.request_timeout),
            },
        ),
    };
    let updated = connections.update(chosen, connection);
    lemma_peer_index_after_update(state.peers, target, i, updated);
    assert(connections_of(next.peers, target) == updated);
}

/// A request sent to a connected peer that has none outstanding goes to the
/// peer's first connection, and the caller is told so.
pub proof fn lemma_send_fresh(
    state: State,
    config: ConfigView,
    target: Seq<u8>,
    request: BlockRequest,
    now: Instant,
)
    requires
        can_send(state, target),
        first_match(connections_of(state.peers, target), Sought::Busy, 0) is None,
    ensures
        send_outcome(state, target, now) == SendRequestOutcome::Sent,
        target_connection(connections_of(state.peers, target)) == 0,
        after_send(state, config, target, request, now).pending.last() is NotifyHandler,
{
    lemma_first_match(connections_of(state.peers, target), Sought::Busy, 0);
}

/// A request sent to a peer that is not connected changes nothing.
pub proof fn lemma_send_not_connected(
    state: State,
    config: ConfigView,
    target: Seq<u8>,
    request: BlockRequest,
    now: Instant,
)
    requires
        !can_send(state, target),
    ensures
        send_outcome(state, target, now) == SendRequestOutcome::NotConnected,
        after_send(state, config, target, request, now) == state,
{
}

/// Closing a connection with an outstanding request reports that request as
/// cancelled, once, with the time since it was sent; closing one without
/// reports nothing.
pub proof fn lemma_close_cancels(state: State, peer: Seq<u8>, id: ConnectionId, now: Instant)
    requires
        first_match(connections_of(state.peers, peer), Sought::WithId(id), 0) is Some,
    ensures
        match connections_of(state.peers, peer)[first_match(
            connections_of(state.peers, peer),
            Sought::WithId(id),
            0,
        ).unwrap()].ongoing_request {
            Some(ongoing) => after_closed(state, peer, id, now).pending == state.pending.push(
                ActionView::GenerateEvent(
                    EventView::RequestCancelled {
                        peer,
                        original_request: ongoing.request,
                        request_duration: elapsed_between(ongoing.emitted, now),
                    },
                ),
            ),
            None => after_closed(state, peer, id, now).pending == state.pending,
        },
{
    lemma_peer_index(state.peers, peer, 0);
    lemma_first_match(connections_of(state.peers, peer), Sought::WithId(id), 0);
}

/// Closing a connection that is not known changes nothing.
pub proof fn lemma_close_unknown(state: State, peer: Seq<u8>, id: ConnectionId, now: Instant)
    requires
        first_match(connections_of(state.peers, peer), Sought::WithId(id), 0) is None,
    ensures
        after_closed(state, peer, id, now) == state,
{
    lemma_peer_index(state.peers, peer, 0);
}

/// Actions that wait are handed out first, oldest first, whatever has timed out.
pub proof fn lemma_poll_queue_first(state: State, now: Instant)
    requires
        state.pending.len() > 0,
    ensures
        poll_result(state, now) == Some(state.pending[0]),
        after_poll(state, now).peers == state.peers,
        after_poll(state, now).pending == state.pending.skip(1),
        after_poll(state, now).written == state.written,
{
    assert(state.pending.subrange(1, state.pending.len() as int) =~= state.pending.skip(1));
}

/// With nothing waiting, a request that has timed out is reported as timed
/// out and leaves its connection, so that it is not reported again; the
/// queue stays empty and every other connection stays as it was.
pub proof fn lemma_timeout_reported_once(state: State, now: Instant)
    requires
        state.pending.len() == 0,
        first_expired(state.peers, now, 0) is Some,
    ensures
        poll_result(state, now) is Some,
        poll_result(state, now).unwrap() is GenerateEvent,
        poll_result(state, now).unwrap()->GenerateEvent_0 is RequestTimeout,
        after_poll(state, now).pending == state.pending,
        after_poll(state, now).written == state.written,
        after_poll(state, now).peers.len() == state.peers.len(),
        first_expired(after_poll(state, now).peers, now, 0) != first_expired(state.peers, now, 0),
        ({
            let (i, j) = first_expired(state.peers, now, 0).unwrap();
            &&& 0 <= i < state.peers.len()
            &&& 0 <= j < state.peers[i].connections.len()
            &&& after_poll(state, now).peers[i].connections[j].ongoing_request is None
            &&& after_poll(state, now).peers[i].connections[j].id == state.peers[i].connections[j].id
        }),
{
    lemma_first_expired(state.peers, now, 0);
    let (i, j) = first_expired(state.peers, now, 0).unwrap();
    let next = after_poll(state, now);
    lemma_first_expired(next.peers, now, 0);
}

/// With nothing waiting and nothing timed out, the response that was
/// written first is reported as answered, and is not reported again.
pub proof fn lemma_poll_answered(state: State, now: Instant)
    requires
        state.pending.len() == 0,
        first_expired(state.peers, now, 0) is None,
        state.written.len() > 0,
    ensures
        poll_result(state, now) == Some(
            ActionView::GenerateEvent(
                EventView::AnsweredRequest {
                    peer: state.written[0].peer,
                    total_handling_time: state.written[0].total_handling_time,
                },
            ),
        ),
        after_poll(state, now).written == state.written.skip(1),
        after_poll(state, now).peers == state.peers,
        after_poll(state, now).pending == state.pending,
{
    assert(state.written.subrange(1, state.written.len() as int) =~= state.written.skip(1));
}

/// With nothing waiting, nothing timed out and nothing written, `poll` has
/// nothing to hand out and changes nothing.
pub proof fn lemma_poll_pending(state: State, now: Instant)
    requires
        state.pending.len() == 0,
        first_expired(state.peers, now, 0) is None,
        state.written.len() == 0,
    ensures
        poll_result(state, now) is None,
        after_poll(state, now) == state,
{
}

/// A request that was sent has timed out at every instant from the
/// configured time after it was sent.
pub proof fn lemma_sent_request_expires(
    state: State,
    config: ConfigView,
    target: Seq<u8>,
    request: BlockRequest,
    now: Instant,
    later: Instant,
)
    requires
        can_send(state, target),
        later.millis >= instant_after(now, config.request_timeout).millis,
    ensures
        first_expired(after_send(state, config, target, request, now).peers, later, 0) is Some,
{
    lemma_peer_index(state.peers, target, 0);
    let i = peer_index(state.peers, target, 0).unwrap();
    let connections = state.peers[i].connections;
    let chosen = target_connection(connections);
    lemma_first_match(connections, Sought::Busy, 0);
    let next = after_send(state, config, target, request, now);
    assert(Sought::Expired(later).found_in(next.peers[i].connections[chosen]));
    lemma_first_expired(next.peers, later, 0);
}

/// The table stays well formed when a connection is established: every
/// peer of the table has a connection, no peer is there twice, and no peer
/// has requests outstanding on two connections.
pub proof fn lemma_established_keeps_wf(state: State, peer: Seq<u8>, id: ConnectionId)
    requires
        state.wf(),
    ensures
        after_established(state, peer, id).wf(),
{
    lemma_peer_index(state.peers, peer, 0);
}

/// The table stays well formed when a connection closes; a peer leaves the
/// table with its last connection.
pub proof fn lemma_closed_keeps_wf(state: State, peer: Seq<u8>, id: ConnectionId, now: Instant)
    requires
        state.wf(),
    ensures
        after_closed(state, peer, id, now).wf(),
{
    lemma_peer_index(state.peers, peer, 0);
    match peer_index(state.peers, peer, 0) {
        Some(i) => {
            lemma_first_match(state.peers[i].connections, Sought::WithId(id), 0);
        },
        None => {},
    }
    lemma_single_flight_after_closed(state, peer, id, now);
}

/// The table stays well formed when a request is sent: a peer never has
/// more than one request outstanding, since a new request takes the place of
/// the outstanding one, wherever that is.
pub proof fn lemma_send_keeps_wf(
    state: State,
    config: ConfigView,
    target: Seq<u8>,
    request: BlockRequest,
    now: Instant,
)
    requires
        state.wf(),
    ensures
        after_send(state, config, target, request, now).wf(),
{
    lemma_peer_index(state.peers, target, 0);
    match peer_index(state.peers, target, 0) {
        Some(i) => {
            lemma_first_match(state.peers[i].connections, Sought::Busy, 0);
        },
        None => {},
    }
    lemma_single_flight_after_send(state, config, target, request, now);
}

/// The table stays well formed when a response comes.
pub proof fn lemma_response_keeps_wf(
    state: State,
    peer: Seq<u8>,
    id: ConnectionId,
    original_request: BlockRequest,
    response: schema::BlockResponseView,
    now: Instant,
)
    requires
        state.wf(),
    ensures
        after_response(state, peer, id, original_request, response, now).wf(),
{
    lemma_peer_index(state.peers, peer, 0);
    match peer_index(state.peers, peer, 0) {
        Some(i) => {
            lemma_first_match(state.peers[i].connections, Sought::WithId(id), 0);
        },
        None => {},
    }
}

/// The table stays well formed when the behaviour is polled.
pub proof fn lemma_poll_keeps_wf(state: State, now: Instant)
    requires
        state.wf(),
    ensures
        after_poll(state, now).wf(),
{
    lemma_first_expired(state.peers, now, 0);
}

proof fn lemma_single_flight_after_send(
    state: State,
    config: ConfigView,
    peer: Seq<u8>,
    request: BlockRequest,
    now: Instant,
)
    requires
        single_flight(state.peers),
    ensures
        single_flight(after_send(state, config, peer, request, now).peers),
{
    lemma_peer_index(state.peers, peer, 0);
    if can_send(state, peer) {
        let i = peer_index(state.peers, peer, 0).unwrap();
        let connections = state.peers[i].connections;
        lemma_first_match(connections, Sought::Busy, 0);
        let chosen = target_connection(connections);
        let next = after_send(state, config, peer, request, now).peers;
        assert forall|a: int, j: int, k: int|
            0 <= a < next.len() && 0 <= j < k < next[a].connections.len() implies !(
        Sought::Busy.found_in(#[trigger] next[a].connections[j]) && Sought::Busy.found_in(
            #[trigger] next[a].connections[k],
        )) by {
            if a == i {
                if j != chosen {
                    assert(next[a].connections[j] == connections[j]);
                }
                if k != chosen {
                    assert(next[a].connections[k] == connections[k]);
                }
                if connections[j].ongoing_request is Some && j != chosen {
                    assert(connections[chosen].ongoing_request is Some);
                    assert(Sought::Busy.found_in(connections[j]));
                }
                if connections[k].ongoing_request is Some && k != chosen {
                    assert(connections[chosen].ongoing_request is Some);
                    assert(Sought::Busy.found_in(connections[k]));
                }
                if j != chosen && k != chosen {
                    assert(state.peers[i].connections[j] == connections[j]);
                    assert(state.peers[i].connections[k] == connections[k]);
                }
            } else {
                assert(next[a] == state.peers[a]);
                assert(next[a].connections[j] == state.peers[a].connections[j]);
                assert(next[a].connections[k] == state.peers[a].connections[k]);
            }
        }
    }
}

proof fn lemma_single_flight_after_closed(
    state: State,
    peer: Seq<u8>,
    id: ConnectionId,
    now: Instant,
)
    requires
        single_flight(state.peers),
    ensures
        single_flight(after_closed(state, peer, id, now).peers),
{
    lemma_peer_index(state.peers, peer, 0);
    match peer_index(state.peers, peer, 0) {
        None => {},
        Some(i) => {
            let connections = state.peers[i].connections;
            lemma_first_match(connections, Sought::WithId(id), 0);
            match first_match(connections, Sought::WithId(id), 0) {
                None => {},
                Some(position) => {
                    let left = connections.remove(position);
                    let next = after_closed(state, peer, id, now).peers;
                    assert forall|a: int, j: int, k: int|
                        0 <= a < next.len() && 0 <= j < k < next[a].connections.len() implies !(
                    Sought::Busy.found_in(#[trigger] next[a].connections[j])
                        && Sought::Busy.found_in(#[trigger] next[a].connections[k])) by {
                        if left.len() == 0 {
                            let b = if a < i {
                                a
                            } else {
                                a + 1
                            };
                            assert(next[a] == state.peers[b]);
                            assert(next[a].connections[j] == state.peers[b].connections[j]);
                            assert(next[a].connections[k] == state.peers[b].connections[k]);
                        } else if a == i {
                            let j0 = if j < position {
                                j
                            } else {
                                j + 1
                            };
                            let k0 = if k < position {
                                k
                            } else {
                                k + 1
                            };
                            assert(next[a].connections[j] == state.peers[i].connections[j0]);
                            assert(next[a].connections[k] == state.peers[i].connections[k0]);
                        } else {
                            assert(next[a] == state.peers[a]);
                            assert(next[a].connections[j] == state.peers[a].connections[j]);
                            assert(next[a].connections[k] == state.peers[a].connections[k]);
                        }
                    }
                },
            }
        },
    }
}

/// What the requester takes from a record with a whole hash are the bytes
/// of the record: the hash, the header, the body where one was asked for, the
/// message queue and the justification. The bytes of the receipt are taken
/// where the message queue has bytes.
pub proof fn lemma_decoding_preserves_bytes(block: schema::BlockDataView, body_wanted: bool)
    requires
        block.hash.len() == 32,
    ensures
        decoded_block(block, body_wanted) is Some,
        decoded_block(block, body_wanted).unwrap().hash == block.hash,
        bytes_or_empty(decoded_block(block, body_wanted).unwrap().header) == block.header,
        body_wanted ==> decoded_block(block, body_wanted).unwrap().body == Some(block.body),
        bytes_or_empty(decoded_block(block, body_wanted).unwrap().message_queue)
            == block.message_queue,
        bytes_or_empty(decoded_block(block, body_wanted).unwrap().justification)
            == block.justification,
        block.message_queue.len() > 0 ==> decoded_block(block, body_wanted).unwrap().receipt
            == Some(block.receipt),
{
    assert(block.hash.take(32) =~= block.hash);
    if block.header.len() == 0 {
        assert(block.header =~= Seq::<u8>::empty());
    }
    if block.message_queue.len() == 0 {
        assert(block.message_queue =~= Seq::<u8>::empty());
    }
    if block.justification.len() == 0 {
        assert(block.justification =~= Seq::<u8>::empty());
    }
}

/// The request that one side writes to a substream is the request that the
/// other side reads from it, where it is no longer than that side accepts.
pub proof fn lemma_request_travels(request: BlockRequest, max_request_len: usize, rest: Seq<u8>)
    requires
        built_request(request).encoding().len() <= max_request_len,
    ensures
        inbound_decoding(frame(built_request(request).encoding()) + rest, max_request_len)
            == Ok::<schema::BlockRequestView, UpgradeError>(built_request(request)),
{
    lemma_frame_round_trip(built_request(request).encoding(), rest, max_request_len);
    lemma_built_request_round_trip(request);
}

/// The response that one side writes to a substream is the response that the
/// other side reads from it, where it is no longer than that side accepts.
pub proof fn lemma_response_travels(
    response: schema::BlockResponseView,
    max_response_len: usize,
    rest: Seq<u8>,
)
    requires
        response.bounded(),
        response.encoding().len() <= max_response_len,
    ensures
        outbound_decoding(frame(response.encoding()) + rest, max_response_len) == Ok::<
            schema::BlockResponseView,
            UpgradeError,
        >(response),
{
    lemma_frame_round_trip(response.encoding(), rest, max_response_len);
    schema::lemma_response_round_trip(response);
}

/// A message that is longer than the other side accepts is refused there.
pub proof fn lemma_long_request_refused(payload: Seq<u8>, max_request_len: usize, rest: Seq<u8>)
    requires
        max_request_len < payload.len() <= u64::MAX,
    ensures
        inbound_decoding(frame(payload) + rest, max_request_len) == Err::<
            schema::BlockRequestView,
            UpgradeError,
        >(
            UpgradeError::Read(
                ReadOneError::TooLarge { requested: payload.len() as u64, max: max_request_len },
            ),
        ),
{
    lemma_frame_too_large(payload, rest, max_request_len);
}

/// A walk that is over takes nothing more, whatever the store gives.
pub proof fn lemma_walk_over_stays(state: WalkState, answers: Seq<Answers>)
    requires
        state.wanted() is None,
    ensures
        outcome(state, answers) == Ok::<WalkState, RequestError>(state),
    decreases answers.len(),
{
    if answers.len() > 0 {
        lemma_walk_over_stays(state, answers.skip(1));
    }
}

/// The record that a step of a walk makes of what the store gave.
pub open spec fn record_given(attributes: BlockAttributes, answers: Answers) -> schema::BlockDataView {
    record(
        attributes,
        answers.header.unwrap(),
        bytes_given(answers.justification),
        items_given(answers.body),
    )
}

/// What a walk holds when it has not failed: what it held before, and then
/// one record for each answer of the store, in their order, none left out and
/// none twice, as long as the store gave a header and the walk had room. It
/// never holds more than it may; and where it holds fewer new records than
/// there are answers, it is over.
pub proof fn lemma_walk_records(state: WalkState, answers: Seq<Answers>)
    requires
        state.blocks.len() <= state.max,
        outcome(state, answers) is Ok,
    ensures
        outcome(state, answers).unwrap().attributes == state.attributes,
        outcome(state, answers).unwrap().direction == state.direction,
        outcome(state, answers).unwrap().max == state.max,
        state.blocks.len() <= outcome(state, answers).unwrap().blocks.len() <= state.max,
        outcome(state, answers).unwrap().blocks.len() <= state.blocks.len() + answers.len(),
        outcome(state, answers).unwrap().blocks.take(state.blocks.len() as int) == state.blocks,
        forall|i: int|
            0 <= i < outcome(state, answers).unwrap().blocks.len() - state.blocks.len() ==> (
            #[trigger] answers[i]).header is Some && outcome(state, answers).unwrap().blocks[
                state.blocks.len() + i] == record_given(state.attributes, answers[i]),
        outcome(state, answers).unwrap().blocks.len() < state.blocks.len() + answers.len()
            ==> outcome(state, answers).unwrap().wanted() is None,
    decreases answers.len(),
{
    let reached = outcome(state, answers).unwrap();
    if answers.len() == 0 {
        assert(reached.blocks.take(state.blocks.len() as int) =~= state.blocks);
    } else if state.wanted() is None {
        lemma_walk_over_stays(state, answers);
        assert(reached.blocks.take(state.blocks.len() as int) =~= state.blocks);
    } else {
        let next = stepped(state, answers[0]).unwrap();
        let rest = answers.skip(1);
        lemma_walk_records(next, rest);
        if answers[0].header is None {
            lemma_walk_over_stays(next, rest);
            assert(reached.blocks.take(state.blocks.len() as int) =~= state.blocks);
        } else {
            assert(next.blocks.len() == state.blocks.len() + 1);
            assert(reached.blocks.take(state.blocks.len() as int) =~= state.blocks) by {
                assert(reached.blocks.take(next.blocks.len() as int) == next.blocks);
                assert forall|k: int| 0 <= k < state.blocks.len() implies reached.blocks[k]
                    == state.blocks[k] by {
                    assert(reached.blocks.take(next.blocks.len() as int)[k] == next.blocks[k]);
                }
            }
            assert forall|i: int|
                0 <= i < reached.blocks.len() - state.blocks.len() implies (
            #[trigger] answers[i]).header is Some && reached.blocks[state.blocks.len() + i]
                == record_given(state.attributes, answers[i]) by {
                if i == 0 {
                    assert(reached.blocks.take(next.blocks.len() as int)[state.blocks.len() as int]
                        == next.blocks[state.blocks.len() as int]);
                } else {
                    assert(rest[i - 1] == answers[i]);
                }
            }
        }
    }
}

/// A walk fails only on a justification or a body that was asked for and
/// that the store failed to give for a block whose header it gave; never on
/// a header.
pub proof fn lemma_walk_fails_on_parts(state: WalkState, answers: Seq<Answers>)
    requires
        outcome(state, answers) is Err,
    ensures
        outcome(state, answers)->Err_0 is Client,
        state.wanted() is Some,
        state.attributes.has(JUSTIFICATION) || state.attributes.has(BODY),
        exists|k: int|
            0 <= k < answers.len() && (#[trigger] answers[k]).header is Some && (
            state.attributes.has(JUSTIFICATION) && answers[k].justification is Err
                || state.attributes.has(BODY) && answers[k].body is Err),
    decreases answers.len(),
{
    if state.wanted() is None {
        lemma_walk_over_stays(state, answers);
    } else {
        match stepped(state, answers[0]) {
            Err(_) => {
                assert(answers[0].header is Some);
            },
            Ok(next) => {
                let rest = answers.skip(1);
                lemma_walk_fails_on_parts(next, rest);
                let k = choose|k: int|
                    0 <= k < rest.len() && (#[trigger] rest[k]).header is Some && (
                    next.attributes.has(JUSTIFICATION) && rest[k].justification is Err
                        || next.attributes.has(BODY) && rest[k].body is Err);
                assert(rest[k] == answers[k + 1]);
            },
        }
    }
}

/// Where a walk without failures is asked for justifications, each record
/// tells what the store gave for its block: no justification, an empty one,
/// or one with bytes, each in a way of its own.
pub proof fn lemma_walk_justifications(state: WalkState, answers: Seq<Answers>, i: int)
    requires
        state.blocks.len() <= state.max,
        state.attributes.has(JUSTIFICATION),
        outcome(state, answers) is Ok,
        0 <= i < outcome(state, answers).unwrap().blocks.len() - state.blocks.len(),
    ensures
        outcome(state, answers).unwrap().blocks[state.blocks.len() + i].justification
            == bytes_or_empty(bytes_given(answers[i].justification)),
        outcome(state, answers).unwrap().blocks[state.blocks.len() + i].is_empty_justification
            == (bytes_given(answers[i].justification) is Some && bytes_given(
            answers[i].justification,
        ).unwrap().len() == 0),
{
    lemma_walk_records(state, answers);
}

/// Whether, along a walk, every header that the store gave for a block
/// number has that number.
pub open spec fn true_to_numbers(state: WalkState, answers: Seq<Answers>) -> bool
    decreases answers.len(),
{
    if answers.len() == 0 {
        true
    } else {
        &&& match (state.wanted(), answers[0].header) {
            (Some(BlockId::Number(number)), Some(header)) => header.number == number,
            _ => true,
        }
        &&& match stepped(state, answers[0]) {
            Ok(next) => true_to_numbers(next, answers.skip(1)),
            Err(_) => true,
        }
    }
}

/// Whether, along a walk, every header that the store gave for a block hash
/// has that hash.
pub open spec fn true_to_hashes(state: WalkState, answers: Seq<Answers>) -> bool
    decreases answers.len(),
{
    if answers.len() == 0 {
        true
    } else {
        &&& match (state.wanted(), answers[0].header) {
            (Some(BlockId::Hash(hash)), Some(header)) => header.hash == hash,
            _ => true,
        }
        &&& match stepped(state, answers[0]) {
            Ok(next) => true_to_hashes(next, answers.skip(1)),
            Err(_) => true,
        }
    }
}

/// On a store that files every block under its own number, an ascending
/// walk from a number takes the block with that number and then the blocks
/// with the numbers after it, one by one.
pub proof fn lemma_walk_ascending(state: WalkState, answers: Seq<Answers>, first: u64, i: int)
    requires
        state.blocks.len() <= state.max,
        state.direction == Direction::Ascending,
        state.next == Some(BlockId::Number(first)),
        true_to_numbers(state, answers),
        outcome(state, answers) is Ok,
        0 <= i < outcome(state, answers).unwrap().blocks.len() - state.blocks.len(),
    ensures
        answers[i].header is Some,
        answers[i].header.unwrap().number == first + i,
        outcome(state, answers).unwrap().blocks[state.blocks.len() + i] == record_given(
            state.attributes,
            answers[i],
        ),
    decreases answers.len(),
{
    lemma_walk_records(state, answers);
    if state.wanted() is None {
        lemma_walk_over_stays(state, answers);
    } else {
        let next = stepped(state, answers[0]).unwrap();
        let rest = answers.skip(1);
        if answers[0].header is None {
            lemma_walk_over_stays(next, rest);
        } else if i > 0 {
            lemma_walk_records(next, rest);
            if next.wanted() is None {
                lemma_walk_over_stays(next, rest);
            } else {
                assert(rest[i - 1] == answers[i]);
                lemma_walk_ascending(next, rest, (first + 1) as u64, i - 1);
            }
        }
    }
}

/// On a store that files every block under its own hash, each block of a
/// descending walk is the parent of the block before it, and no block comes
/// after the block with the number zero.
pub proof fn lemma_walk_descending(state: WalkState, answers: Seq<Answers>, i: int)
    requires
        state.blocks.len() <= state.max,
        state.direction == Direction::Descending,
        true_to_hashes(state, answers),
        outcome(state, answers) is Ok,
        0 <= i,
        i + 1 < outcome(state, answers).unwrap().blocks.len() - state.blocks.len(),
    ensures
        answers[i].header is Some,
        answers[i + 1].header is Some,
        answers[i + 1].header.unwrap().hash == answers[i].header.unwrap().parent_hash,
        answers[i].header.unwrap().number != 0,
    decreases answers.len(),
{
    lemma_walk_records(state, answers);
    if state.wanted() is None {
        lemma_walk_over_stays(state, answers);
    } else {
        let next = stepped(state, answers[0]).unwrap();
        let rest = answers.skip(1);
        if answers[0].header is None {
            lemma_walk_over_stays(next, rest);
        } else {
            lemma_walk_records(next, rest);
            if next.wanted() is None {
                lemma_walk_over_stays(next, rest);
            } else if i == 0 {
                assert(rest[0] == answers[1]);
                assert(rest.len() > 0);
            } else {
                assert(rest[i - 1] == answers[i]);
                assert(rest[i] == answers[i + 1]);
                lemma_walk_descending(next, rest, i - 1);
            }
        }
    }
}

/// The state after polls at the given instants, one after the other, with
/// nothing happening in between.
pub open spec fn polled(state: State, times: Seq<Instant>) -> State
    decreases times.len(),
{
    if times.len() == 0 {
        state
    } else {
        polled(after_poll(state, times[0]), times.skip(1))
    }
}

/// Whether what a poll handed out reports the timeout of `request` to `peer`.
pub open spec fn is_timeout_of(
    action: Option<ActionView>,
    peer: Seq<u8>,
    request: BlockRequest,
) -> bool {
    match action {
        Some(
            ActionView::GenerateEvent(
                EventView::RequestTimeout { peer: reported, original_request, .. },
            ),
        ) => reported == peer && original_request == request,
        _ => false,
    }
}

/// The number of polls of a run that report the timeout of `request` to `peer`.
pub open spec fn timeouts_reported(
    state: State,
    times: Seq<Instant>,
    peer: Seq<u8>,
    request: BlockRequest,
) -> nat
    decreases times.len(),
{
    if times.len() == 0 {
        0
    } else {
        let rest = timeouts_reported(after_poll(state, times[0]), times.skip(1), peer, request);
        if is_timeout_of(poll_result(state, times[0]), peer, request) {
            rest + 1
        } else {
            rest
        }
    }
}

/// The only request of a peer is on the first connection that has one, and
/// clearing it leaves the peer without a request.
proof fn lemma_only_request(connections: Seq<Connection>, j: int)
    requires
        0 <= j < connections.len(),
        Sought::Busy.found_in(connections[j]),
        forall|a: int, b: int|
            0 <= a < b < connections.len() ==> !(Sought::Busy.found_in(#[trigger] connections[a])
                && Sought::Busy.found_in(#[trigger] connections[b])),
    ensures
        first_match(connections, Sought::Busy, 0) == Some(j),
        first_match(
            connections.update(j, Connection { id: connections[j].id, ongoing_request: None }),
            Sought::Busy,
            0,
        ) is None,
{
    lemma_first_match(connections, Sought::Busy, 0);
    let found = first_match(connections, Sought::Busy, 0).unwrap();
    if found != j {
        assert(Sought::Busy.found_in(connections[found]));
        assert(Sought::Busy.found_in(connections[j]));
    }
    let cleared = connections.update(
        j,
        Connection { id: connections[j].id, ongoing_request: None },
    );
    lemma_first_match(cleared, Sought::Busy, 0);
    if first_match(cleared, Sought::Busy, 0) is Some {
        let k = first_match(cleared, Sought::Busy, 0).unwrap();
        assert(k != j);
        assert(cleared[k] == connections[k]);
        assert(Sought::Busy.found_in(connections[k]));
        assert(Sought::Busy.found_in(connections[j]));
    }
}

/// What one poll does to the request that is outstanding for a peer: it
/// stays, unless the poll reports its timeout, at or after its deadline; and
/// a poll reports no timeout to a peer but that of its outstanding request.
pub proof fn lemma_poll_and_outstanding(
    state: State,
    now: Instant,
    peer: Seq<u8>,
    request: BlockRequest,
)
    requires
        state.wf(),
    ensures
        after_poll(state, now).wf(),
        is_timeout_of(poll_result(state, now), peer, request) ==> {
            &&& state.outstanding(peer) is Some
            &&& state.outstanding(peer).unwrap().request == request
            &&& now.millis >= state.outstanding(peer).unwrap().deadline.millis
            &&& after_poll(state, now).outstanding(peer) is None
        },
        !is_timeout_of(poll_result(state, now), peer, request) ==> {
            ||| after_poll(state, now).outstanding(peer) == state.outstanding(peer)
            ||| state.outstanding(peer) is Some && state.outstanding(peer).unwrap().request
                != request && after_poll(state, now).outstanding(peer) is None
        },
        state.outstanding(peer) is None ==> after_poll(state, now).outstanding(peer) is None,
{
    lemma_poll_keeps_wf(state, now);
    lemma_first_expired(state.peers, now, 0);
    lemma_peer_index(state.peers, peer, 0);
    if state.pending.len() > 0 {
        assert(!(state.pending[0] is GenerateEvent && state.pending[0]->GenerateEvent_0
            is RequestTimeout));
    } else {
        match first_expired(state.peers, now, 0) {
            Some((i, j)) => {
                let connections = state.peers[i].connections;
                let cleared = connections.update(
                    j,
                    Connection { id: connections[j].id, ongoing_request: None },
                );
                lemma_peer_index_after_update(state.peers, peer, i, cleared);
                assert(peer_index(after_poll(state, now).peers, peer, 0) == peer_index(
                    state.peers,
                    peer,
                    0,
                ));
                assert forall|a: int, b: int|
                    0 <= a < b < connections.len() implies !(Sought::Busy.found_in(
                    #[trigger] connections[a],
                ) && Sought::Busy.found_in(#[trigger] connections[b])) by {
                    assert(connections[a] == state.peers[i].connections[a]);
                    assert(connections[b] == state.peers[i].connections[b]);
                }
                lemma_only_request(connections, j);
                if state.peers[i].peer == peer {
                    let found = peer_index(state.peers, peer, 0).unwrap();
                    if found != i {
                        assert(state.peers[found].peer == state.peers[i].peer);
                    }
                } else {
                    match peer_index(state.peers, peer, 0) {
                        Some(found) => {
                            assert(found != i);
                        },
                        None => {},
                    }
                }
            },
            None => {},
        }
    }
}

/// A peer without an outstanding request stays without one however often the
/// behaviour is polled, and no timeout is reported to it.
pub proof fn lemma_idle_peer_stays_idle(
    state: State,
    times: Seq<Instant>,
    peer: Seq<u8>,
    request: BlockRequest,
)
    requires
        state.wf(),
        state.outstanding(peer) is None,
    ensures
        polled(state, times).outstanding(peer) is None,
        timeouts_reported(state, times, peer, request) == 0,
    decreases times.len(),
{
    if times.len() > 0 {
        lemma_poll_and_outstanding(state, times[0], peer, request);
        lemma_idle_peer_stays_idle(after_poll(state, times[0]), times.skip(1), peer, request);
    }
}

/// Over any run of polls with nothing happening in between, the timeout of
/// the request that is outstanding for a peer is reported once if the request
/// has left its connection by the end of the run, and else not at all; it is
/// not reported by a poll before its deadline; and no other request takes
/// its place.
pub proof fn lemma_timeout_over_polls(state: State, times: Seq<Instant>, peer: Seq<u8>)
    requires
        state.wf(),
        state.outstanding(peer) is Some,
    ensures
        polled(state, times).outstanding(peer) is Some ==> polled(state, times).outstanding(peer)
            == state.outstanding(peer),
        timeouts_reported(state, times, peer, state.outstanding(peer).unwrap().request) == (
        if polled(state, times).outstanding(peer) is Some {
            0nat
        } else {
            1nat
        }),
        (forall|k: int|
            0 <= k < times.len() ==> (#[trigger] times[k]).millis < state.outstanding(
                peer,
            ).unwrap().deadline.millis) ==> polled(state, times).outstanding(peer) is Some,
    decreases times.len(),
{
    let request = state.outstanding(peer).unwrap().request;
    if times.len() > 0 {
        let next = after_poll(state, times[0]);
        let rest = times.skip(1);
        lemma_poll_and_outstanding(state, times[0], peer, request);
        if is_timeout_of(poll_result(state, times[0]), peer, request) {
            lemma_idle_peer_stays_idle(next, rest, peer, request);
        } else {
            lemma_timeout_over_polls(next, rest, peer);
            assert forall|k: int| 0 <= k < rest.len() implies rest[k] == times[k + 1] by {}
            if forall|k: int|
                0 <= k < times.len() ==> (#[trigger] times[k]).millis < state.outstanding(
                    peer,
                ).unwrap().deadline.millis {
                assert forall|k: int| 0 <= k < rest.len() implies (#[trigger] rest[k]).millis
                    < next.outstanding(peer).unwrap().deadline.millis by {
                    assert(rest[k] == times[k + 1]);
                }
            }
        }
    }
}

/// A poll that finds nothing to hand out comes before the deadline of every
/// outstanding request: once a deadline has passed, polling until nothing is
/// left reports the timeout.
pub proof fn lemma_quiet_poll_is_early(state: State, now: Instant, peer: Seq<u8>)
    requires
        state.wf(),
        state.outstanding(peer) is Some,
        poll_result(state, now) is None,
    ensures
        now.millis < state.outstanding(peer).unwrap().deadline.millis,
{
    lemma_first_expired(state.peers, now, 0);
    lemma_peer_index(state.peers, peer, 0);
    let i = peer_index(state.peers, peer, 0).unwrap();
    let connections = state.peers[i].connections;
    lemma_first_match(connections, Sought::Busy, 0);
    let j = first_match(connections, Sought::Busy, 0).unwrap();
    assert(!Sought::Expired(now).found_in(state.peers[i].connections[j]));
}

/// The request that was sent to a connected peer is the one that is
/// outstanding for it, with its deadline the configured time after it was
/// sent.
pub proof fn lemma_sent_is_outstanding(
    state: State,
    config: ConfigView,
    target: Seq<u8>,
    request: BlockRequest,
    now: Instant,
)
    requires
        state.wf(),
        can_send(state, target),
    ensures
        after_send(state, config, target, request, now).wf(),
        after_send(state, config, target, request, now).outstanding(target) == Some(
            OngoingRequest {
                emitted: now,
                request,
                deadline: instant_after(now, config.request_timeout),
            },
        ),
{
    lemma_send_keeps_wf(state, config, target, request, now);
    lemma_peer_index(state.peers, target, 0);
    let i = peer_index(state.peers, target, 0).unwrap();
    let connections = state.peers[i].connections;
    lemma_first_match(connections, Sought::Busy, 0);
    let chosen = target_connection(connections);
    let sent = Connection {
        id: connections[chosen].id,
        ongoing_request: Some(
            OngoingRequest {
                emitted: now,
                request,
                deadline: instant_after(now, config.request_timeout),
            },
        ),
    };
    let updated = connections.update(chosen, sent);
    lemma_peer_index_after_update(state.peers, target, i, updated);
    let next = after_send(state, config, target, request, now);
    assert(connections_of(next.peers, target) == updated);
    lemma_first_match(updated, Sought::Busy, 0);
    let found = first_match(updated, Sought::Busy, 0);
    assert(Sought::Busy.found_in(updated[chosen]));
    if found != Some(chosen) {
        let k = found.unwrap();
        assert(k < chosen);
        assert(updated[k] == connections[k]);
        assert(Sought::Busy.found_in(connections[k]));
    }
}

/// What a well-formed request gets when its walk does not fail on what the
/// store gave: one record for each answer with a header, in their order,
/// none left out and none twice, up to the smaller of what the request asks
/// for and what the node serves; fewer only where the chain has ended.
pub proof fn lemma_served_records(
    request: schema::BlockRequestView,
    cap: u32,
    start: BlockId,
    answers: Seq<Answers>,
)
    requires
        request_error(request) is None,
        walked(request, cap, start, answers) is Ok,
        walked(request, cap, start, answers).unwrap().wanted() is None,
    ensures
        walked(request, cap, start, answers).unwrap().blocks.len() <= effective_max(
            request.max_blocks,
            cap,
        ),
        walked(request, cap, start, answers).unwrap().blocks.len() <= answers.len(),
        walked(request, cap, start, answers).unwrap().blocks.len() < effective_max(
            request.max_blocks,
            cap,
        ) ==> walked(request, cap, start, answers).unwrap().next is None,
        forall|i: int|
            0 <= i < walked(request, cap, start, answers).unwrap().blocks.len() ==> (
            #[trigger] answers[i]).header is Some && walked(
                request,
                cap,
                start,
                answers,
            ).unwrap().blocks[i] == record_given(
                attributes_of(request.fields).unwrap(),
                answers[i],
            ),
{
    lemma_walk_records(started(request, cap, start), answers);
}

/// The records of an ascending request from a number, on a store that files
/// every block under its own number, are those of the blocks with that
/// number and the numbers after it, one by one.
pub proof fn lemma_served_ascending(
    request: schema::BlockRequestView,
    cap: u32,
    first: u64,
    answers: Seq<Answers>,
    i: int,
)
    requires
        request_error(request) is None,
        direction_of(request.direction) == Some(Direction::Ascending),
        true_to_numbers(started(request, cap, BlockId::Number(first)), answers),
        walked(request, cap, BlockId::Number(first), answers) is Ok,
        0 <= i < walked(request, cap, BlockId::Number(first), answers).unwrap().blocks.len(),
    ensures
        answers[i].header is Some,
        answers[i].header.unwrap().number == first + i,
        walked(request, cap, BlockId::Number(first), answers).unwrap().blocks[i] == record_given(
            attributes_of(request.fields).unwrap(),
            answers[i],
        ),
{
    lemma_walk_ascending(started(request, cap, BlockId::Number(first)), answers, first, i);
}

/// Each record of a descending request, on a store that files every block
/// under its own hash, is that of the parent of the block before it; and no
/// record comes after that of the block with the number zero.
pub proof fn lemma_served_descending(
    request: schema::BlockRequestView,
    cap: u32,
    start: BlockId,
    answers: Seq<Answers>,
    i: int,
)
    requires
        request_error(request) is None,
        direction_of(request.direction) == Some(Direction::Descending),
        true_to_hashes(started(request, cap, start), answers),
        walked(request, cap, start, answers) is Ok,
        0 <= i,
        i + 1 < walked(request, cap, start, answers).unwrap().blocks.len(),
    ensures
        answers[i].header is Some,
        answers[i + 1].header is Some,
        answers[i + 1].header.unwrap().hash == answers[i].header.unwrap().parent_hash,
        answers[i].header.unwrap().number != 0,
        walked(request, cap, start, answers).unwrap().blocks[i + 1].hash
            == crate::scale::hash_encoding(answers[i].header.unwrap().parent_hash),
{
    lemma_walk_descending(started(request, cap, start), answers, i);
    lemma_walk_records(started(request, cap, start), answers);
}

/// A request fails on what the store gave only where a justification or a
/// body was asked for and the store failed to give it for a block whose
/// header it gave; a header that the store fails to give fails no request.
pub proof fn lemma_served_failure(
    request: schema::BlockRequestView,
    cap: u32,
    start: BlockId,
    answers: Seq<Answers>,
)
    requires
        request_error(request) is None,
        walked(request, cap, start, answers) is Err,
    ensures
        walked(request, cap, start, answers)->Err_0 is Client,
        effective_max(request.max_blocks, cap) > 0,
        attributes_of(request.fields).unwrap().has(JUSTIFICATION) || attributes_of(
            request.fields,
        ).unwrap().has(BODY),
        exists|k: int|
            0 <= k < answers.len() && (#[trigger] answers[k]).header is Some && (attributes_of(
                request.fields,
            ).unwrap().has(JUSTIFICATION) && answers[k].justification is Err || attributes_of(
                request.fields,
            ).unwrap().has(BODY) && answers[k].body is Err),
{
    lemma_walk_fails_on_parts(started(request, cap, start), answers);
}

} // verus!
