use block_requests::behaviour::build_protobuf_block_request;
use block_requests::message::{BlockAttributes, Direction, BODY, HEADER, JUSTIFICATION};
use block_requests::schema::{
    BlockData, BlockRequest, BlockResponse, FromBlock, ASCENDING, DESCENDING,
};
use block_requests::types::BlockHash;
use block_requests::wire::{
    put_bytes_field, put_key, put_varint_field, skip_unknown, take_bytes, take_key, take_varint,
    Key, WireError,
};

fn sample_request() -> BlockRequest {
    BlockRequest {
        fields: 0x1100_0000,
        from_block: Some(FromBlock::Number(vec![10, 0, 0, 0, 0, 0, 0, 0])),
        to_block: vec![0xaa; 32],
        direction: DESCENDING,
        max_blocks: 3,
    }
}

fn sample_block(seed: u8) -> BlockData {
    BlockData {
        hash: vec![seed; 32],
        header: vec![seed, 1, 2, 3],
        body: vec![vec![seed, 9], vec![], vec![seed; 200]],
        receipt: vec![4, 5],
        message_queue: vec![6],
        justification: vec![7, 8, 9],
        is_empty_justification: false,
    }
}

#[test]
fn key_holds_tag_and_wire_type() {
    let mut buf = Vec::new();
    put_key(1, 0, &mut buf);
    put_key(2, 2, &mut buf);
    put_key(16, 2, &mut buf);
    assert_eq!(buf, vec![0x08, 0x12, 0x82, 0x01]);
    assert_eq!(take_key(&[0x12, 0xff]), Ok((Key { tag: 2, wire_type: 2 }, 1)));
    assert_eq!(take_key(&[0x82, 0x01]), Ok((Key { tag: 16, wire_type: 2 }, 2)));
}

#[test]
fn key_errors() {
    assert_eq!(take_key(&[]), Err(WireError::InvalidVarint));
    assert_eq!(take_key(&[0x80]), Err(WireError::InvalidVarint));
    // Tag zero.
    assert_eq!(take_key(&[0x02]), Err(WireError::InvalidTag));
    // Wire types six and seven do not exist.
    assert_eq!(take_key(&[0x0e]), Err(WireError::InvalidWireType));
    assert_eq!(take_key(&[0x0f]), Err(WireError::InvalidWireType));
    // A key of more than 32 bits.
    assert_eq!(
        take_key(&[0x80, 0x80, 0x80, 0x80, 0x10]),
        Err(WireError::InvalidKey)
    );
}

#[test]
fn fields_agree_with_prost() {
    let mut ours = Vec::new();
    put_varint_field(6, 300, &mut ours);
    put_bytes_field(4, &[1, 2, 3], &mut ours);
    let mut theirs: Vec<u8> = Vec::new();
    prost::encoding::uint32::encode(6, &300u32, &mut theirs);
    prost::encoding::bytes::encode(4, &vec![1u8, 2, 3], &mut theirs);
    assert_eq!(ours, theirs);
}

#[test]
fn payload_readers() {
    assert_eq!(take_varint(&[0xac, 0x02, 9]), Ok((300, 2)));
    assert_eq!(take_varint(&[0x80]), Err(WireError::InvalidVarint));
    let (data, used) = take_bytes(&[3, 7, 8, 9, 1]).unwrap();
    assert_eq!(data, &[7u8, 8, 9]);
    assert_eq!(used, 4);
    assert_eq!(take_bytes(&[3, 7, 8]), Err(WireError::BufferUnderflow));
    assert_eq!(take_bytes(&[]), Err(WireError::InvalidVarint));
}

#[test]
fn unknown_fields_are_stepped_over() {
    // A varint payload.
    assert_eq!(skip_unknown(Key { tag: 9, wire_type: 0 }, &[0xac, 0x02, 5]), Ok(2));
    // Eight bytes, four bytes.
    assert_eq!(skip_unknown(Key { tag: 9, wire_type: 1 }, &[0; 9]), Ok(8));
    assert_eq!(skip_unknown(Key { tag: 9, wire_type: 5 }, &[0; 9]), Ok(4));
    // A length and that many bytes.
    assert_eq!(skip_unknown(Key { tag: 9, wire_type: 2 }, &[2, 1, 1, 7]), Ok(3));
    // A group with a varint field inside, closed by its own tag.
    assert_eq!(
        skip_unknown(Key { tag: 9, wire_type: 3 }, &[0x08, 0x01, 0x4c, 0x33]),
        Ok(3)
    );
}

#[test]
fn unknown_fields_that_cannot_be_stepped_over() {
    assert_eq!(
        skip_unknown(Key { tag: 9, wire_type: 1 }, &[0; 7]),
        Err(WireError::UnknownField)
    );
    assert_eq!(
        skip_unknown(Key { tag: 9, wire_type: 2 }, &[5, 1]),
        Err(WireError::UnknownField)
    );
    // A group closed by the tag of another group.
    assert_eq!(
        skip_unknown(Key { tag: 9, wire_type: 3 }, &[0x54]),
        Err(WireError::UnknownField)
    );
    // The end of a group that never began.
    assert_eq!(
        skip_unknown(Key { tag: 9, wire_type: 4 }, &[]),
        Err(WireError::UnknownField)
    );
}

#[test]
fn request_encoding_is_fields_in_tag_order() {
    let request = BlockRequest {
        fields: 0x0100_0000,
        from_block: Some(FromBlock::Number(vec![10, 0, 0, 0, 0, 0, 0, 0])),
        to_block: vec![],
        direction: ASCENDING,
        max_blocks: 3,
    };
    assert_eq!(
        request.encode_to_vec(),
        vec![
            0x08, 0x80, 0x80, 0x80, 0x08, // fields = 0x0100_0000
            0x1a, 0x08, 10, 0, 0, 0, 0, 0, 0, 0, // number
            0x30, 0x03, // max_blocks
        ]
    );
    assert_eq!(request.encoded_len(), 17);
}

#[test]
fn request_encoding_agrees_with_prost() {
    let request = sample_request();
    let mut theirs: Vec<u8> = Vec::new();
    prost::encoding::uint32::encode(1, &request.fields, &mut theirs);
    prost::encoding::bytes::encode(3, &vec![10u8, 0, 0, 0, 0, 0, 0, 0], &mut theirs);
    prost::encoding::bytes::encode(4, &request.to_block, &mut theirs);
    prost::encoding::int32::encode(5, &request.direction, &mut theirs);
    prost::encoding::uint32::encode(6, &request.max_blocks, &mut theirs);
    assert_eq!(request.encode_to_vec(), theirs);
}

#[test]
fn default_request_encodes_to_nothing() {
    assert_eq!(BlockRequest::default().encode_to_vec(), Vec::<u8>::new());
    assert_eq!(BlockRequest::decode(&[]), Ok(BlockRequest::default()));
    assert_eq!(BlockRequest::default().from_block, None);
}

#[test]
fn request_round_trip() {
    let request = sample_request();
    assert_eq!(BlockRequest::decode(&request.encode_to_vec()), Ok(request));
    let by_hash = BlockRequest {
        fields: 0,
        from_block: Some(FromBlock::Hash(vec![])),
        to_block: vec![1],
        direction: -5,
        max_blocks: u32::MAX,
    };
    assert_eq!(BlockRequest::decode(&by_hash.encode_to_vec()), Ok(by_hash));
}

#[test]
fn negative_direction_takes_ten_bytes() {
    let request = BlockRequest { direction: -1, ..BlockRequest::default() };
    let mut theirs: Vec<u8> = Vec::new();
    prost::encoding::int32::encode(5, &-1i32, &mut theirs);
    assert_eq!(request.encode_to_vec(), theirs);
    assert_eq!(theirs.len(), 11);
    assert_eq!(BlockRequest::decode(&theirs).unwrap().direction, -1);
}

#[test]
fn request_decoding_takes_fields_in_any_order_and_the_last_value() {
    let bytes = vec![
        0x30, 0x03, // max_blocks = 3
        0x12, 0x01, 0xaa, // hash
        0x08, 0x01, // fields = 1
        0x1a, 0x02, 0xbb, 0xcc, // number replaces hash
        0x30, 0x07, // max_blocks = 7
    ];
    let request = BlockRequest::decode(&bytes).unwrap();
    assert_eq!(request.max_blocks, 7);
    assert_eq!(request.fields, 1);
    assert_eq!(request.from_block, Some(FromBlock::Number(vec![0xbb, 0xcc])));
}

#[test]
fn request_decoding_steps_over_unknown_fields() {
    let bytes = vec![
        0x78, 0x2a, // field 15, varint
        0x30, 0x03, // max_blocks = 3
        0x7a, 0x02, 0x01, 0x02, // field 15, two bytes
        0x28, 0x01, // direction = 1
    ];
    let request = BlockRequest::decode(&bytes).unwrap();
    assert_eq!(request.max_blocks, 3);
    assert_eq!(request.direction, DESCENDING);
}

#[test]
fn request_decoding_errors() {
    // fields by a length-delimited payload.
    assert_eq!(BlockRequest::decode(&[0x0a, 0x00]), Err(WireError::UnexpectedWireType));
    // to_block by a varint.
    assert_eq!(BlockRequest::decode(&[0x20, 0x00]), Err(WireError::UnexpectedWireType));
    // A hash that ends after the message does.
    assert_eq!(BlockRequest::decode(&[0x12, 0x05, 0x01]), Err(WireError::BufferUnderflow));
    // A key and nothing after it.
    assert_eq!(BlockRequest::decode(&[0x30]), Err(WireError::InvalidVarint));
    assert_eq!(BlockRequest::decode(&[0x00]), Err(WireError::InvalidTag));
    assert_eq!(BlockRequest::decode(&[0x0f]), Err(WireError::InvalidWireType));
    assert_eq!(BlockRequest::decode(&[0x7a, 0x05]), Err(WireError::UnknownField));
}

#[test]
fn wide_varints_are_cut_to_their_field() {
    // 2^32 + 5 as max_blocks.
    let bytes = vec![0x30, 0x85, 0x80, 0x80, 0x80, 0x10];
    assert_eq!(BlockRequest::decode(&bytes).unwrap().max_blocks, 5);
    // 2^32 - 1 as direction.
    let bytes = vec![0x28, 0xff, 0xff, 0xff, 0xff, 0x0f];
    assert_eq!(BlockRequest::decode(&bytes).unwrap().direction, -1);
}

#[test]
fn block_encoding_agrees_with_prost() {
    let block = sample_block(3);
    let mut theirs: Vec<u8> = Vec::new();
    prost::encoding::bytes::encode(1, &block.hash, &mut theirs);
    prost::encoding::bytes::encode(2, &block.header, &mut theirs);
    prost::encoding::bytes::encode_repeated(3, &block.body, &mut theirs);
    prost::encoding::bytes::encode(4, &block.receipt, &mut theirs);
    prost::encoding::bytes::encode(5, &block.message_queue, &mut theirs);
    prost::encoding::bytes::encode(6, &block.justification, &mut theirs);
    assert_eq!(block.encode_to_vec(), theirs);
}

#[test]
fn empty_justification_flag_is_one_field() {
    let block = BlockData { is_empty_justification: true, ..BlockData::default() };
    assert_eq!(block.encode_to_vec(), vec![0x38, 0x01]);
    let mut theirs: Vec<u8> = Vec::new();
    prost::encoding::bool::encode(7, &true, &mut theirs);
    assert_eq!(block.encode_to_vec(), theirs);
    assert_eq!(BlockData::decode(&[0x38, 0x01]), Ok(block));
    // Any value but zero is true.
    assert!(BlockData::decode(&[0x38, 0x05]).unwrap().is_empty_justification);
    assert!(!BlockData::decode(&[0x38, 0x00]).unwrap().is_empty_justification);
}

#[test]
fn block_round_trip() {
    let block = sample_block(9);
    assert_eq!(BlockData::decode(&block.encode_to_vec()), Ok(block));
    assert_eq!(BlockData::decode(&[]), Ok(BlockData::default()));
}

#[test]
fn body_items_keep_their_order_and_empty_items() {
    let block = BlockData {
        body: vec![vec![], vec![1], vec![], vec![2, 3]],
        ..BlockData::default()
    };
    assert_eq!(
        block.encode_to_vec(),
        vec![0x1a, 0, 0x1a, 1, 1, 0x1a, 0, 0x1a, 2, 2, 3]
    );
    assert_eq!(BlockData::decode(&block.encode_to_vec()).unwrap().body, block.body);
}

#[test]
fn response_round_trip() {
    let response = BlockResponse {
        blocks: vec![sample_block(1), BlockData::default(), sample_block(2)],
    };
    let bytes = response.encode_to_vec();
    assert_eq!(BlockResponse::decode(&bytes), Ok(response));
    assert_eq!(BlockResponse::decode(&[]), Ok(BlockResponse::default()));
    assert_eq!(BlockResponse::default().encode_to_vec(), Vec::<u8>::new());
}

#[test]
fn response_is_one_field_for_each_block() {
    let response = BlockResponse {
        blocks: vec![
            BlockData { hash: vec![1, 2], ..BlockData::default() },
            BlockData::default(),
        ],
    };
    assert_eq!(
        response.encode_to_vec(),
        vec![0x0a, 0x04, 0x0a, 0x02, 1, 2, 0x0a, 0x00]
    );
}

#[test]
fn response_decoding_errors() {
    // The block is cut short.
    assert_eq!(
        BlockResponse::decode(&[0x0a, 0x04, 0x0a, 0x02, 1]),
        Err(WireError::BufferUnderflow)
    );
    // The block is all there, but a field inside runs past its end.
    assert_eq!(
        BlockResponse::decode(&[0x0a, 0x03, 0x0a, 0x02, 1, 2]),
        Err(WireError::BufferUnderflow)
    );
    assert_eq!(BlockResponse::decode(&[0x08, 0x01]), Err(WireError::UnexpectedWireType));
    // An unknown field beside the blocks is stepped over.
    assert_eq!(
        BlockResponse::decode(&[0x10, 0x01, 0x0a, 0x00]),
        Ok(BlockResponse { blocks: vec![BlockData::default()] })
    );
}

#[test]
fn built_request_carries_every_field() {
    let hash = BlockHash::new([7u8; 32]);
    let to = BlockHash::new([8u8; 32]);
    let built = build_protobuf_block_request(
        BlockAttributes::from_bits(HEADER | BODY | JUSTIFICATION).unwrap(),
        block_requests::message::FromBlock::Hash(hash),
        Some(to),
        Direction::Descending,
        Some(64),
    );
    assert_eq!(
        built,
        BlockRequest {
            fields: 0x1300_0000,
            from_block: Some(FromBlock::Hash(vec![7u8; 32])),
            to_block: vec![8u8; 32],
            direction: DESCENDING,
            max_blocks: 64,
        }
    );
    let built = build_protobuf_block_request(
        BlockAttributes::empty(),
        block_requests::message::FromBlock::Number(258),
        None,
        Direction::Ascending,
        None,
    );
    assert_eq!(
        built,
        BlockRequest {
            fields: 0,
            from_block: Some(FromBlock::Number(vec![2, 1, 0, 0, 0, 0, 0, 0])),
            to_block: vec![],
            direction: ASCENDING,
            max_blocks: 0,
        }
    );
    assert_eq!(BlockRequest::decode(&built.encode_to_vec()), Ok(built));
}

#[test]
fn wire_types_that_do_not_exist_cannot_be_stepped_over() {
    assert_eq!(
        skip_unknown(Key { tag: 9, wire_type: 6 }, &[0, 0, 0, 0]),
        Err(WireError::UnknownField)
    );
    assert_eq!(
        skip_unknown(Key { tag: 9, wire_type: 255 }, &[]),
        Err(WireError::UnknownField)
    );
}
