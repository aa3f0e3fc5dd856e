use block_requests::behaviour::{
    find_connection, Action, BlockRequests, Config, Connection, Event, InboundProtocol, NodeEvent,
    OngoingRequest, OutboundProtocol, PollResult, ProtocolId, SendRequestOutcome, Sought,
    UpgradeError,
};
use block_requests::chain::{BlockId, Client, ClientError, Header};
use block_requests::framing::{write_one, ReadOneError};
use block_requests::message::{
    BlockAttributes, BlockData, BlockRequest, BlockResponse, Direction, FromBlock, BODY, HEADER,
    JUSTIFICATION,
};
use block_requests::schema;
use block_requests::types::{BlockHash, ConnectionId, Duration, Instant, PeerId};
use block_requests::wire::WireError;

/// A chain of the blocks `0..=last`.
struct Numbers {
    last: u64,
}

fn hash_of(number: u64) -> BlockHash {
    let mut bytes = [0x11u8; 32];
    bytes[..8].copy_from_slice(&number.to_le_bytes());
    BlockHash::new(bytes)
}

impl Client for Numbers {
    fn header(&self, id: &BlockId) -> Result<Option<Header>, ClientError> {
        let number = match id {
            BlockId::Number(number) => *number,
            BlockId::Hash(hash) => {
                let mut bytes = [0u8; 8];
                bytes.copy_from_slice(&hash.bytes[..8]);
                u64::from_le_bytes(bytes)
            }
        };
        if number > self.last {
            return Ok(None);
        }
        Ok(Some(Header {
            number,
            hash: hash_of(number),
            parent_hash: hash_of(number.wrapping_sub(1)),
            encoded: vec![0xab, number as u8],
        }))
    }

    fn block_body(&self, _: &BlockId) -> Result<Option<Vec<Vec<u8>>>, ClientError> {
        Err(ClientError { message: String::from("bodies are pruned") })
    }

    fn justification(&self, _: &BlockId) -> Result<Option<Vec<u8>>, ClientError> {
        Ok(None)
    }
}

fn behaviour() -> BlockRequests<Numbers> {
    let config = Config::new(&ProtocolId::from_bytes(b"foo".to_vec()));
    BlockRequests::new(config, Numbers { last: 1000 })
}

fn peer(name: u8) -> PeerId {
    PeerId::from_bytes(vec![0x12, 0x20, name])
}

fn request(id: u64, fields: u8) -> BlockRequest {
    BlockRequest {
        id,
        fields: BlockAttributes::from_bits(fields).unwrap(),
        from: FromBlock::Number(10 * id),
        to: None,
        direction: Direction::Ascending,
        max: Some(3),
    }
}

fn at(millis: u64) -> Instant {
    Instant::from_millis(millis)
}

fn wire_response(numbers: &[u64]) -> schema::BlockResponse {
    schema::BlockResponse {
        blocks: numbers
            .iter()
            .map(|number| schema::BlockData {
                hash: hash_of(*number).bytes.to_vec(),
                header: vec![0xab, *number as u8],
                ..schema::BlockData::default()
            })
            .collect(),
    }
}

fn drain(behaviour: &mut BlockRequests<Numbers>, now: Instant) -> Vec<Action> {
    let mut actions = Vec::new();
    loop {
        match behaviour.poll(now) {
            PollResult::Ready(action) => actions.push(action),
            PollResult::Pending => return actions,
        }
    }
}

#[test]
fn fresh_configuration_has_the_defaults() {
    let config = Config::new(&ProtocolId::from_bytes(b"foo".to_vec()));
    assert_eq!(config.max_block_data_response, 128);
    assert_eq!(config.max_request_len, 1024 * 1024);
    assert_eq!(config.max_response_len, 16 * 1024 * 1024);
    assert_eq!(config.inactivity_timeout, Duration::from_secs(15));
    assert_eq!(config.request_timeout, Duration::from_secs(40));
    assert_eq!(config.protocol, b"/foo/sync/2".to_vec());
}

#[test]
fn configuration_setters_chain() {
    let mut config = Config::new(&ProtocolId::from_bytes(b"foo".to_vec()));
    config
        .set_max_block_data_response(7)
        .set_max_request_len(100)
        .set_max_response_len(200)
        .set_inactivity_timeout(Duration::from_secs(1))
        .set_protocol(&ProtocolId::from_bytes(b"dot".to_vec()));
    assert_eq!(config.max_block_data_response, 7);
    assert_eq!(config.max_request_len, 100);
    assert_eq!(config.max_response_len, 200);
    assert_eq!(config.inactivity_timeout, Duration::from_millis(1000));
    assert_eq!(config.request_timeout, Duration::from_secs(40));
    assert_eq!(config.protocol, b"/dot/sync/2".to_vec());
    assert_eq!(ProtocolId::from_bytes(b"dot".to_vec()).as_bytes(), b"dot");
}

#[test]
fn protocol_name_and_handler_follow_the_configuration() {
    let mut config = Config::new(&ProtocolId::from_bytes(Vec::new()));
    config.set_max_request_len(55);
    let behaviour = BlockRequests::new(config, Numbers { last: 0 });
    assert_eq!(behaviour.protocol_name(), b"//sync/2");
    let handler = behaviour.new_handler();
    assert_eq!(
        handler.inbound,
        InboundProtocol { max_request_len: 55, protocol: b"//sync/2".to_vec() }
    );
    assert_eq!(handler.inactive_timeout, Duration::from_secs(15));
    assert_eq!(handler.substream_timeout, Duration::from_secs(40));
    assert_eq!(handler.inbound.protocol_info(), b"//sync/2".to_vec());
}

#[test]
fn nothing_to_do_at_first() {
    let mut behaviour = behaviour();
    assert_eq!(behaviour.poll(at(0)), PollResult::Pending);
    assert_eq!(behaviour.poll(at(u64::MAX)), PollResult::Pending);
}

#[test]
fn request_to_unknown_peer_is_not_sent() {
    let mut behaviour = behaviour();
    behaviour.inject_connection_established(&peer(1), &ConnectionId(1));
    assert_eq!(
        behaviour.send_request(&peer(2), request(1, HEADER), at(0)),
        SendRequestOutcome::NotConnected
    );
    assert_eq!(behaviour.poll(at(0)), PollResult::Pending);
}

#[test]
fn request_is_handed_to_the_first_connection() {
    let mut behaviour = behaviour();
    behaviour.inject_connection_established(&peer(1), &ConnectionId(7));
    behaviour.inject_connection_established(&peer(1), &ConnectionId(8));
    let sent = request(1, HEADER | JUSTIFICATION);
    assert_eq!(behaviour.send_request(&peer(1), sent, at(5)), SendRequestOutcome::Sent);
    let expected = schema::BlockRequest {
        fields: 0x1100_0000,
        from_block: Some(schema::FromBlock::Number(vec![10, 0, 0, 0, 0, 0, 0, 0])),
        to_block: Vec::new(),
        direction: schema::ASCENDING,
        max_blocks: 3,
    };
    assert_eq!(
        behaviour.poll(at(5)),
        PollResult::Ready(Action::NotifyHandler {
            peer_id: peer(1),
            connection: ConnectionId(7),
            event: OutboundProtocol {
                request: expected.encode_to_vec(),
                original_request: sent,
                max_response_size: 16 * 1024 * 1024,
                protocol: b"/foo/sync/2".to_vec(),
            },
        })
    );
    assert_eq!(behaviour.poll(at(5)), PollResult::Pending);
}

#[test]
fn second_request_replaces_the_first() {
    let mut behaviour = behaviour();
    let p = peer(1);
    behaviour.inject_connection_established(&p, &ConnectionId(1));
    let r1 = request(1, HEADER);
    let r2 = request(2, HEADER);
    assert_eq!(behaviour.send_request(&p, r1, at(100)), SendRequestOutcome::Sent);
    assert_eq!(
        behaviour.send_request(&p, r2, at(350)),
        SendRequestOutcome::Replaced { previous: r1, request_duration: Duration::from_millis(250) }
    );
    // Two substreams are asked for, and nothing is reported as cancelled.
    let actions = drain(&mut behaviour, at(350));
    assert_eq!(actions.len(), 2);
    for action in &actions {
        assert!(matches!(action, Action::NotifyHandler { .. }));
    }
    // The response to the replaced request is dropped.
    behaviour.on_response(p.clone(), ConnectionId(1), r1, wire_response(&[10]), at(400));
    assert_eq!(behaviour.poll(at(400)), PollResult::Pending);
    // The response to the outstanding one is reported.
    behaviour.on_response(p.clone(), ConnectionId(1), r2, wire_response(&[20, 21]), at(500));
    assert_eq!(
        behaviour.poll(at(500)),
        PollResult::Ready(Action::GenerateEvent(Event::Response {
            peer: p.clone(),
            original_request: r2,
            response: BlockResponse {
                id: 2,
                blocks: vec![
                    BlockData {
                        hash: hash_of(20),
                        header: Some(vec![0xab, 20]),
                        body: None,
                        receipt: None,
                        message_queue: None,
                        justification: None,
                    },
                    BlockData {
                        hash: hash_of(21),
                        header: Some(vec![0xab, 21]),
                        body: None,
                        receipt: None,
                        message_queue: None,
                        justification: None,
                    },
                ],
            },
            request_duration: Duration::from_millis(150),
        }))
    );
    // It is reported once: the request is no longer outstanding.
    behaviour.on_response(p, ConnectionId(1), r2, wire_response(&[20, 21]), at(600));
    assert_eq!(behaviour.poll(at(600)), PollResult::Pending);
}

#[test]
fn replacing_prefers_the_connection_with_a_request() {
    let mut behaviour = behaviour();
    let p = peer(1);
    behaviour.inject_connection_established(&p, &ConnectionId(1));
    behaviour.inject_connection_established(&p, &ConnectionId(2));
    assert_eq!(behaviour.send_request(&p, request(1, HEADER), at(0)), SendRequestOutcome::Sent);
    // The first connection closes; the second is now the only one.
    behaviour.inject_connection_closed(&p, &ConnectionId(1), at(10));
    behaviour.inject_connection_established(&p, &ConnectionId(3));
    assert_eq!(behaviour.send_request(&p, request(2, HEADER), at(20)), SendRequestOutcome::Sent);
    behaviour.inject_connection_established(&p, &ConnectionId(4));
    // The request on connection 2 is the one that is replaced.
    assert_eq!(
        behaviour.send_request(&p, request(3, HEADER), at(30)),
        SendRequestOutcome::Replaced {
            previous: request(2, HEADER),
            request_duration: Duration::from_millis(10),
        }
    );
    let targets: Vec<ConnectionId> = drain(&mut behaviour, at(30))
        .into_iter()
        .filter_map(|action| match action {
            Action::NotifyHandler { connection, .. } => Some(connection),
            Action::GenerateEvent(_) => None,
        })
        .collect();
    assert_eq!(targets, vec![ConnectionId(1), ConnectionId(2), ConnectionId(2)]);
}

#[test]
fn response_on_another_connection_is_dropped() {
    let mut behaviour = behaviour();
    let p = peer(1);
    behaviour.inject_connection_established(&p, &ConnectionId(1));
    behaviour.inject_connection_established(&p, &ConnectionId(2));
    let r = request(1, HEADER);
    assert_eq!(behaviour.send_request(&p, r, at(0)), SendRequestOutcome::Sent);
    drain(&mut behaviour, at(0));
    behaviour.on_response(p.clone(), ConnectionId(2), r, wire_response(&[10]), at(1));
    behaviour.on_response(p.clone(), ConnectionId(9), r, wire_response(&[10]), at(1));
    behaviour.on_response(peer(2), ConnectionId(1), r, wire_response(&[10]), at(1));
    assert_eq!(behaviour.poll(at(1)), PollResult::Pending);
    // The request is still outstanding where it was sent.
    behaviour.on_response(p, ConnectionId(1), r, wire_response(&[10]), at(2));
    assert!(matches!(
        behaviour.poll(at(2)),
        PollResult::Ready(Action::GenerateEvent(Event::Response { .. }))
    ));
}

#[test]
fn malformed_response_clears_the_request_without_an_event() {
    let mut behaviour = behaviour();
    let p = peer(1);
    behaviour.inject_connection_established(&p, &ConnectionId(1));
    let r = request(1, HEADER);
    assert_eq!(behaviour.send_request(&p, r, at(0)), SendRequestOutcome::Sent);
    drain(&mut behaviour, at(0));
    let mut response = wire_response(&[10, 11]);
    response.blocks[1].hash = vec![1, 2, 3];
    behaviour.on_response(p.clone(), ConnectionId(1), r, response, at(1));
    assert_eq!(behaviour.poll(at(1)), PollResult::Pending);
    // The slot is free again: the next request replaces nothing, and nothing times out.
    assert_eq!(behaviour.poll(at(1_000_000)), PollResult::Pending);
    assert_eq!(behaviour.send_request(&p, r, at(2)), SendRequestOutcome::Sent);
}

#[test]
fn body_is_taken_only_when_the_request_asked_for_it() {
    let mut behaviour = behaviour();
    let p = peer(1);
    behaviour.inject_connection_established(&p, &ConnectionId(1));
    let r = request(1, HEADER | BODY);
    assert_eq!(behaviour.send_request(&p, r, at(0)), SendRequestOutcome::Sent);
    drain(&mut behaviour, at(0));
    behaviour.on_response(p, ConnectionId(1), r, wire_response(&[10]), at(1));
    match behaviour.poll(at(1)) {
        PollResult::Ready(Action::GenerateEvent(Event::Response { response, .. })) => {
            assert_eq!(response.blocks[0].body, Some(Vec::new()));
        }
        other => panic!("unexpected {:?}", other),
    }
}

#[test]
fn closing_a_connection_cancels_its_request() {
    let mut behaviour = behaviour();
    let p = peer(1);
    behaviour.inject_connection_established(&p, &ConnectionId(1));
    let r = request(1, HEADER);
    assert_eq!(behaviour.send_request(&p, r, at(1_000)), SendRequestOutcome::Sent);
    drain(&mut behaviour, at(1_000));
    behaviour.inject_connection_closed(&p, &ConnectionId(1), at(4_000));
    assert_eq!(
        drain(&mut behaviour, at(4_000)),
        vec![Action::GenerateEvent(Event::RequestCancelled {
            peer: p.clone(),
            original_request: r,
            request_duration: Duration::from_millis(3_000),
        })]
    );
    // The peer has left the table with its last connection.
    assert_eq!(behaviour.send_request(&p, r, at(5_000)), SendRequestOutcome::NotConnected);
    // Closing it again changes nothing.
    behaviour.inject_connection_closed(&p, &ConnectionId(1), at(6_000));
    assert_eq!(behaviour.poll(at(6_000)), PollResult::Pending);
}

#[test]
fn closing_an_idle_connection_reports_nothing() {
    let mut behaviour = behaviour();
    let p = peer(1);
    behaviour.inject_connection_established(&p, &ConnectionId(1));
    behaviour.inject_connection_established(&p, &ConnectionId(2));
    let r = request(1, HEADER);
    assert_eq!(behaviour.send_request(&p, r, at(0)), SendRequestOutcome::Sent);
    drain(&mut behaviour, at(0));
    behaviour.inject_connection_closed(&p, &ConnectionId(2), at(1));
    behaviour.inject_connection_closed(&p, &ConnectionId(3), at(1));
    behaviour.inject_connection_closed(&peer(2), &ConnectionId(1), at(1));
    assert_eq!(behaviour.poll(at(1)), PollResult::Pending);
    // The request on the other connection is still there.
    assert_eq!(
        behaviour.send_request(&p, request(2, HEADER), at(2)),
        SendRequestOutcome::Replaced { previous: r, request_duration: Duration::from_millis(2) }
    );
}

#[test]
fn request_times_out_once() {
    let mut behaviour = behaviour();
    let p = peer(1);
    behaviour.inject_connection_established(&p, &ConnectionId(1));
    let r = request(1, HEADER);
    assert_eq!(behaviour.send_request(&p, r, at(1_000)), SendRequestOutcome::Sent);
    drain(&mut behaviour, at(1_000));
    // One millisecond before the deadline.
    assert_eq!(behaviour.poll(at(40_999)), PollResult::Pending);
    assert_eq!(
        behaviour.poll(at(41_000)),
        PollResult::Ready(Action::GenerateEvent(Event::RequestTimeout {
            peer: p.clone(),
            original_request: r,
            request_duration: Duration::from_millis(40_000),
        }))
    );
    assert_eq!(behaviour.poll(at(41_000)), PollResult::Pending);
    assert_eq!(behaviour.poll(at(100_000)), PollResult::Pending);
    // The connection is still there, and free.
    assert_eq!(behaviour.send_request(&p, r, at(100_000)), SendRequestOutcome::Sent);
    // A late response to the request that timed out is dropped.
    drain(&mut behaviour, at(100_000));
}

#[test]
fn late_response_after_timeout_is_dropped() {
    let mut behaviour = behaviour();
    let p = peer(1);
    behaviour.inject_connection_established(&p, &ConnectionId(1));
    let r = request(1, HEADER);
    assert_eq!(behaviour.send_request(&p, r, at(0)), SendRequestOutcome::Sent);
    drain(&mut behaviour, at(0));
    assert!(matches!(
        behaviour.poll(at(50_000)),
        PollResult::Ready(Action::GenerateEvent(Event::RequestTimeout { .. }))
    ));
    behaviour.on_response(p, ConnectionId(1), r, wire_response(&[10]), at(50_001));
    assert_eq!(behaviour.poll(at(50_001)), PollResult::Pending);
}

#[test]
fn waiting_actions_come_before_timeouts_and_in_order() {
    let mut behaviour = behaviour();
    let a = peer(1);
    let b = peer(2);
    behaviour.inject_connection_established(&a, &ConnectionId(1));
    behaviour.inject_connection_established(&b, &ConnectionId(2));
    assert_eq!(behaviour.send_request(&a, request(1, HEADER), at(0)), SendRequestOutcome::Sent);
    assert_eq!(behaviour.send_request(&b, request(2, HEADER), at(10)), SendRequestOutcome::Sent);
    let actions = drain(&mut behaviour, at(1_000_000));
    assert_eq!(actions.len(), 4);
    assert!(matches!(&actions[0], Action::NotifyHandler { peer_id, .. } if *peer_id == a));
    assert!(matches!(&actions[1], Action::NotifyHandler { peer_id, .. } if *peer_id == b));
    // The timeouts follow in the order of the table.
    assert!(matches!(
        &actions[2],
        Action::GenerateEvent(Event::RequestTimeout { peer, .. }) if *peer == a
    ));
    assert!(matches!(
        &actions[3],
        Action::GenerateEvent(Event::RequestTimeout { peer, .. }) if *peer == b
    ));
}

#[test]
fn written_response_is_reported_as_answered() {
    let mut behaviour = behaviour();
    behaviour.inject_response_written(peer(3), Duration::from_millis(12));
    behaviour.inject_response_written(peer(4), Duration::from_millis(13));
    assert_eq!(
        drain(&mut behaviour, at(0)),
        vec![
            Action::GenerateEvent(Event::AnsweredRequest {
                peer: peer(3),
                total_handling_time: Duration::from_millis(12),
            }),
            Action::GenerateEvent(Event::AnsweredRequest {
                peer: peer(4),
                total_handling_time: Duration::from_millis(13),
            }),
        ]
    );
}

#[test]
fn written_responses_come_last() {
    let mut behaviour = behaviour();
    let p = peer(1);
    behaviour.inject_response_written(peer(9), Duration::from_millis(1));
    behaviour.inject_connection_established(&p, &ConnectionId(1));
    assert_eq!(behaviour.send_request(&p, request(1, HEADER), at(0)), SendRequestOutcome::Sent);
    let actions = drain(&mut behaviour, at(40_000));
    assert_eq!(actions.len(), 3);
    assert!(matches!(&actions[0], Action::NotifyHandler { .. }));
    assert!(matches!(&actions[1], Action::GenerateEvent(Event::RequestTimeout { .. })));
    assert!(matches!(&actions[2], Action::GenerateEvent(Event::AnsweredRequest { .. })));
}

#[test]
fn inbound_request_is_answered_on_its_substream() {
    let mut behaviour = behaviour();
    let incoming = schema::BlockRequest {
        fields: 0x0100_0000,
        from_block: Some(schema::FromBlock::Number(vec![5, 0, 0, 0, 0, 0, 0, 0])),
        to_block: Vec::new(),
        direction: schema::ASCENDING,
        max_blocks: 2,
    };
    let outgoing = behaviour
        .inject_event(
            peer(1),
            ConnectionId(1),
            NodeEvent::Request(incoming, "substream", at(77)),
            at(80),
        )
        .unwrap();
    assert_eq!(outgoing.peer, peer(1));
    assert_eq!(outgoing.substream, "substream");
    assert_eq!(outgoing.handling_start, at(77));
    let response = schema::BlockResponse::decode(&outgoing.data).unwrap();
    assert_eq!(response, wire_response(&[5, 6]));
    // Answering changes nothing else.
    assert_eq!(behaviour.poll(at(80)), PollResult::Pending);
}

#[test]
fn inbound_request_without_start_gets_no_response() {
    let mut behaviour = behaviour();
    let incoming = schema::BlockRequest { max_blocks: 2, ..schema::BlockRequest::default() };
    assert!(behaviour
        .inject_event(peer(1), ConnectionId(1), NodeEvent::Request(incoming, (), at(0)), at(0))
        .is_none());
    assert_eq!(behaviour.poll(at(0)), PollResult::Pending);
}

#[test]
fn inbound_request_that_the_chain_cannot_serve_gets_no_response() {
    let behaviour = behaviour();
    let incoming = schema::BlockRequest {
        fields: 0x0200_0000,
        from_block: Some(schema::FromBlock::Number(vec![5, 0, 0, 0, 0, 0, 0, 0])),
        to_block: Vec::new(),
        direction: schema::ASCENDING,
        max_blocks: 2,
    };
    assert!(behaviour.on_request(peer(1), &incoming, (), at(0)).is_none());
    assert!(behaviour.on_block_request(&peer(1), &incoming).is_err());
}

#[test]
fn inject_event_matches_responses() {
    let mut behaviour = behaviour();
    let p = peer(1);
    behaviour.inject_connection_established(&p, &ConnectionId(1));
    let r = request(1, HEADER);
    assert_eq!(behaviour.send_request(&p, r, at(0)), SendRequestOutcome::Sent);
    drain(&mut behaviour, at(0));
    let none: Option<_> = behaviour.inject_event::<()>(
        p.clone(),
        ConnectionId(1),
        NodeEvent::Response(r, wire_response(&[10])),
        at(9),
    );
    assert!(none.is_none());
    assert!(matches!(
        behaviour.poll(at(9)),
        PollResult::Ready(Action::GenerateEvent(Event::Response { request_duration, .. }))
            if request_duration == Duration::from_millis(9)
    ));
}

#[test]
fn inbound_upgrade_reads_one_request() {
    let protocol = InboundProtocol { max_request_len: 64, protocol: b"/foo/sync/2".to_vec() };
    let request = schema::BlockRequest {
        fields: 0x0100_0000,
        from_block: Some(schema::FromBlock::Hash(vec![9; 32])),
        to_block: Vec::new(),
        direction: schema::DESCENDING,
        max_blocks: 1,
    };
    let received = write_one(&request.encode_to_vec());
    match protocol.upgrade_inbound(&received, 5u8, at(3)) {
        Ok(NodeEvent::Request(decoded, substream, start)) => {
            assert_eq!(decoded, request);
            assert_eq!(substream, 5);
            assert_eq!(start, at(3));
        }
        other => panic!("unexpected {:?}", other),
    }
}

#[test]
fn inbound_upgrade_errors() {
    let protocol = InboundProtocol { max_request_len: 4, protocol: Vec::new() };
    let too_large = write_one(&[0x30, 0x01, 0x30, 0x02, 0x30]);
    assert!(matches!(
        protocol.upgrade_inbound(&too_large, (), at(0)),
        Err(UpgradeError::Read(ReadOneError::TooLarge { requested: 5, max: 4 }))
    ));
    assert!(matches!(
        protocol.upgrade_inbound(&[2, 0x30], (), at(0)),
        Err(UpgradeError::Read(ReadOneError::Incomplete))
    ));
    assert!(matches!(
        protocol.upgrade_inbound(&[1, 0x30], (), at(0)),
        Err(UpgradeError::Decode(WireError::InvalidVarint))
    ));
}

#[test]
fn outbound_upgrade_writes_the_request_and_reads_the_response() {
    let original = request(4, HEADER);
    let protocol = OutboundProtocol {
        request: vec![1, 2, 3],
        original_request: original,
        max_response_size: 1024,
        protocol: b"/foo/sync/2".to_vec(),
    };
    assert_eq!(protocol.outbound_message(), vec![3, 1, 2, 3]);
    assert_eq!(protocol.protocol_info(), b"/foo/sync/2".to_vec());
    let response = wire_response(&[1, 2, 3]);
    let received = write_one(&response.encode_to_vec());
    match protocol.upgrade_outbound::<()>(&received) {
        Ok(NodeEvent::Response(request, decoded)) => {
            assert_eq!(request, original);
            assert_eq!(decoded, response);
        }
        other => panic!("unexpected {:?}", other),
    }
}

#[test]
fn outbound_upgrade_refuses_a_response_over_the_cap() {
    let protocol = OutboundProtocol {
        request: Vec::new(),
        original_request: request(4, HEADER),
        max_response_size: 8,
        protocol: Vec::new(),
    };
    let received = write_one(&wire_response(&[1]).encode_to_vec());
    assert!(matches!(
        protocol.upgrade_outbound::<()>(&received),
        Err(UpgradeError::Read(ReadOneError::TooLarge { max: 8, .. }))
    ));
}

#[test]
fn finding_connections() {
    let busy = Connection {
        id: ConnectionId(2),
        ongoing_request: Some(OngoingRequest {
            emitted: at(0),
            request: request(1, HEADER),
            deadline: at(100),
        }),
    };
    let idle = Connection { id: ConnectionId(1), ongoing_request: None };
    let list = vec![idle, busy, idle];
    assert_eq!(find_connection(&list, Sought::Busy), Some(1));
    assert_eq!(find_connection(&list, Sought::WithId(ConnectionId(1))), Some(0));
    assert_eq!(find_connection(&list, Sought::WithId(ConnectionId(5))), None);
    assert_eq!(find_connection(&list, Sought::Expired(at(99))), None);
    assert_eq!(find_connection(&list, Sought::Expired(at(100))), Some(1));
    assert_eq!(find_connection(&Vec::new(), Sought::Busy), None);
}

#[test]
fn requests_are_compared_field_by_field() {
    let a = request(1, HEADER);
    assert!(a.same(&a));
    assert!(!a.same(&request(2, HEADER)));
    assert!(!a.same(&BlockRequest { max: None, ..a }));
    assert!(!a.same(&BlockRequest { to: Some(hash_of(1)), ..a }));
    assert!(!a.same(&BlockRequest { direction: Direction::Descending, ..a }));
    assert!(!a.same(&BlockRequest { from: FromBlock::Hash(hash_of(10)), ..a }));
    assert!(!a.same(&BlockRequest { fields: BlockAttributes::empty(), ..a }));
    assert!(peer(1).same(&peer(1)));
    assert!(!peer(1).same(&peer(2)));
}
