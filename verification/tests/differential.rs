//! The wire messages against prost: the same bytes out, and the same answer
//! to any bytes in.

use block_requests::schema::{BlockData, BlockRequest, BlockResponse, FromBlock};
use prost::bytes::{Buf, BufMut};
use prost::encoding::{bool, bytes, int32, message, skip_field, uint32, DecodeContext, WireType};
use prost::{DecodeError, Message};

#[derive(Debug, Default, Clone, PartialEq)]
struct TheirRequest {
    fields: u32,
    from_block: Option<TheirFrom>,
    to_block: Vec<u8>,
    direction: i32,
    max_blocks: u32,
}

#[derive(Debug, Clone, PartialEq)]
enum TheirFrom {
    Hash(Vec<u8>),
    Number(Vec<u8>),
}

impl Message for TheirRequest {
    fn encode_raw(&self, buf: &mut impl BufMut) {
        if self.fields != 0 {
            uint32::encode(1, &self.fields, buf);
        }
        match &self.from_block {
            Some(TheirFrom::Hash(value)) => bytes::encode(2, value, buf),
            Some(TheirFrom::Number(value)) => bytes::encode(3, value, buf),
            None => {}
        }
        if !self.to_block.is_empty() {
            bytes::encode(4, &self.to_block, buf);
        }
        if self.direction != 0 {
            int32::encode(5, &self.direction, buf);
        }
        if self.max_blocks != 0 {
            uint32::encode(6, &self.max_blocks, buf);
        }
    }

    fn merge_field(
        &mut self,
        tag: u32,
        wire_type: WireType,
        buf: &mut impl Buf,
        ctx: DecodeContext,
    ) -> Result<(), DecodeError> {
        match tag {
            1 => uint32::merge(wire_type, &mut self.fields, buf, ctx),
            2 => {
                let mut value = Vec::new();
                bytes::merge(wire_type, &mut value, buf, ctx)?;
                self.from_block = Some(TheirFrom::Hash(value));
                Ok(())
            }
            3 => {
                let mut value = Vec::new();
                bytes::merge(wire_type, &mut value, buf, ctx)?;
                self.from_block = Some(TheirFrom::Number(value));
                Ok(())
            }
            4 => bytes::merge(wire_type, &mut self.to_block, buf, ctx),
            5 => int32::merge(wire_type, &mut self.direction, buf, ctx),
            6 => uint32::merge(wire_type, &mut self.max_blocks, buf, ctx),
            _ => skip_field(wire_type, tag, buf, ctx),
        }
    }

    fn encoded_len(&self) -> usize {
        let mut buf = Vec::new();
        self.encode_raw(&mut buf);
        buf.len()
    }

    fn clear(&mut self) {
        *self = TheirRequest::default();
    }
}

#[derive(Debug, Default, Clone, PartialEq)]
struct TheirBlock {
    hash: Vec<u8>,
    header: Vec<u8>,
    body: Vec<Vec<u8>>,
    receipt: Vec<u8>,
    message_queue: Vec<u8>,
    justification: Vec<u8>,
    is_empty_justification: bool,
}

impl Message for TheirBlock {
    fn encode_raw(&self, buf: &mut impl BufMut) {
        if !self.hash.is_empty() {
            bytes::encode(1, &self.hash, buf);
        }
        if !self.header.is_empty() {
            bytes::encode(2, &self.header, buf);
        }
        bytes::encode_repeated(3, &self.body, buf);
        if !self.receipt.is_empty() {
            bytes::encode(4, &self.receipt, buf);
        }
        if !self.message_queue.is_empty() {
            bytes::encode(5, &self.message_queue, buf);
        }
        if !self.justification.is_empty() {
            bytes::encode(6, &self.justification, buf);
        }
        if self.is_empty_justification {
            bool::encode(7, &self.is_empty_justification, buf);
        }
    }

    fn merge_field(
        &mut self,
        tag: u32,
        wire_type: WireType,
        buf: &mut impl Buf,
        ctx: DecodeContext,
    ) -> Result<(), DecodeError> {
        match tag {
            1 => bytes::merge(wire_type, &mut self.hash, buf, ctx),
            2 => bytes::merge(wire_type, &mut self.header, buf, ctx),
            3 => bytes::merge_repeated(wire_type, &mut self.body, buf, ctx),
            4 => bytes::merge(wire_type, &mut self.receipt, buf, ctx),
            5 => bytes::merge(wire_type, &mut self.message_queue, buf, ctx),
            6 => bytes::merge(wire_type, &mut self.justification, buf, ctx),
            7 => bool::merge(wire_type, &mut self.is_empty_justification, buf, ctx),
            _ => skip_field(wire_type, tag, buf, ctx),
        }
    }

    fn encoded_len(&self) -> usize {
        let mut buf = Vec::new();
        self.encode_raw(&mut buf);
        buf.len()
    }

    fn clear(&mut self) {
        *self = TheirBlock::default();
    }
}

#[derive(Debug, Default, Clone, PartialEq)]
struct TheirResponse {
    blocks: Vec<TheirBlock>,
}

impl Message for TheirResponse {
    fn encode_raw(&self, buf: &mut impl BufMut) {
        message::encode_repeated(1, &self.blocks, buf);
    }

    fn merge_field(
        &mut self,
        tag: u32,
        wire_type: WireType,
        buf: &mut impl Buf,
        ctx: DecodeContext,
    ) -> Result<(), DecodeError> {
        match tag {
            1 => message::merge_repeated(wire_type, &mut self.blocks, buf, ctx),
            _ => skip_field(wire_type, tag, buf, ctx),
        }
    }

    fn encoded_len(&self) -> usize {
        let mut buf = Vec::new();
        self.encode_raw(&mut buf);
        buf.len()
    }

    fn clear(&mut self) {
        *self = TheirResponse::default();
    }
}

fn their_request(ours: &BlockRequest) -> TheirRequest {
    TheirRequest {
        fields: ours.fields,
        from_block: ours.from_block.as_ref().map(|from| match from {
            FromBlock::Hash(value) => TheirFrom::Hash(value.clone()),
            FromBlock::Number(value) => TheirFrom::Number(value.clone()),
        }),
        to_block: ours.to_block.clone(),
        direction: ours.direction,
        max_blocks: ours.max_blocks,
    }
}

fn their_block(ours: &BlockData) -> TheirBlock {
    TheirBlock {
        hash: ours.hash.clone(),
        header: ours.header.clone(),
        body: ours.body.clone(),
        receipt: ours.receipt.clone(),
        message_queue: ours.message_queue.clone(),
        justification: ours.justification.clone(),
        is_empty_justification: ours.is_empty_justification,
    }
}

fn their_response(ours: &BlockResponse) -> TheirResponse {
    TheirResponse { blocks: ours.blocks.iter().map(their_block).collect() }
}

/// A small generator of numbers that looks random and always gives the same run.
struct Dice(u64);

impl Dice {
    fn next(&mut self) -> u64 {
        self.0 = self.0.wrapping_mul(6364136223846793005).wrapping_add(1442695040888963407);
        self.0 >> 33
    }

    fn below(&mut self, bound: u64) -> u64 {
        self.next() % bound
    }

    fn bytes(&mut self, max_len: u64) -> Vec<u8> {
        let len = self.below(max_len + 1);
        (0..len).map(|_| self.next() as u8).collect()
    }

    /// Bytes that often look like the beginning of a field.
    fn wire_like(&mut self, max_len: u64) -> Vec<u8> {
        let len = self.below(max_len + 1);
        (0..len)
            .map(|_| match self.below(4) {
                0 => (self.below(9) << 3 | self.below(8)) as u8,
                1 => self.below(6) as u8,
                2 => 0x80 | self.next() as u8,
                _ => self.next() as u8,
            })
            .collect()
    }

    fn request(&mut self) -> BlockRequest {
        BlockRequest {
            fields: if self.below(3) == 0 { 0 } else { self.next() as u32 },
            from_block: match self.below(3) {
                0 => None,
                1 => Some(FromBlock::Hash(self.bytes(40))),
                _ => Some(FromBlock::Number(self.bytes(10))),
            },
            to_block: self.bytes(40),
            direction: match self.below(4) {
                0 => 0,
                1 => 1,
                2 => -(self.below(1 << 31) as i32) - 1,
                _ => self.below(1 << 31) as i32,
            },
            max_blocks: if self.below(3) == 0 { 0 } else { self.next() as u32 },
        }
    }

    fn block(&mut self) -> BlockData {
        let items = self.below(4);
        BlockData {
            hash: self.bytes(33),
            header: self.bytes(200),
            body: (0..items).map(|_| self.bytes(20)).collect(),
            receipt: self.bytes(3),
            message_queue: self.bytes(3),
            justification: self.bytes(10),
            is_empty_justification: self.below(2) == 0,
        }
    }

    fn response(&mut self) -> BlockResponse {
        let blocks = self.below(5);
        BlockResponse { blocks: (0..blocks).map(|_| self.block()).collect() }
    }

    /// Changes, cuts or lengthens `bytes` a little.
    fn damage(&mut self, bytes: &mut Vec<u8>) {
        match self.below(4) {
            0 if !bytes.is_empty() => {
                let at = self.below(bytes.len() as u64) as usize;
                bytes[at] = self.next() as u8;
            }
            1 if !bytes.is_empty() => {
                let keep = self.below(bytes.len() as u64) as usize;
                bytes.truncate(keep);
            }
            2 => {
                let at = self.below(bytes.len() as u64 + 1) as usize;
                let extra = self.wire_like(6);
                bytes.splice(at..at, extra);
            }
            _ => bytes.extend(self.wire_like(4)),
        }
    }
}

fn same_request(bytes: &[u8]) {
    let ours = BlockRequest::decode(bytes).ok();
    let theirs = TheirRequest::decode(bytes).ok();
    assert_eq!(ours.as_ref().map(their_request), theirs, "request bytes {:?}", bytes);
}

fn same_block(bytes: &[u8]) {
    let ours = BlockData::decode(bytes).ok();
    let theirs = TheirBlock::decode(bytes).ok();
    assert_eq!(ours.as_ref().map(their_block), theirs, "block bytes {:?}", bytes);
}

fn same_response(bytes: &[u8]) {
    let ours = BlockResponse::decode(bytes).ok();
    let theirs = TheirResponse::decode(bytes).ok();
    assert_eq!(ours.as_ref().map(their_response), theirs, "response bytes {:?}", bytes);
}

#[test]
fn requests_encode_as_prost_encodes_them() {
    let mut dice = Dice(1);
    for _ in 0..2000 {
        let request = dice.request();
        assert_eq!(request.encode_to_vec(), their_request(&request).encode_to_vec());
        assert_eq!(request.encoded_len(), their_request(&request).encoded_len());
    }
}

#[test]
fn responses_encode_as_prost_encodes_them() {
    let mut dice = Dice(2);
    for _ in 0..500 {
        let response = dice.response();
        assert_eq!(response.encode_to_vec(), their_response(&response).encode_to_vec());
        for block in &response.blocks {
            assert_eq!(block.encode_to_vec(), their_block(block).encode_to_vec());
        }
    }
}

#[test]
fn requests_decode_as_prost_decodes_them() {
    let mut dice = Dice(3);
    for _ in 0..2000 {
        let request = dice.request();
        let mut bytes = request.encode_to_vec();
        assert_eq!(BlockRequest::decode(&bytes).as_ref(), Ok(&request));
        same_request(&bytes);
        for _ in 0..3 {
            dice.damage(&mut bytes);
            same_request(&bytes);
        }
    }
}

#[test]
fn responses_decode_as_prost_decodes_them() {
    let mut dice = Dice(4);
    for _ in 0..500 {
        let response = dice.response();
        let mut bytes = response.encode_to_vec();
        assert_eq!(BlockResponse::decode(&bytes).as_ref(), Ok(&response));
        same_response(&bytes);
        for _ in 0..3 {
            dice.damage(&mut bytes);
            same_response(&bytes);
            same_block(&bytes);
        }
    }
}

#[test]
fn any_bytes_decode_as_prost_decodes_them() {
    let mut dice = Dice(5);
    for _ in 0..20000 {
        let bytes = dice.wire_like(12);
        same_request(&bytes);
        same_block(&bytes);
        same_response(&bytes);
    }
    for _ in 0..5000 {
        let bytes = dice.bytes(30);
        same_request(&bytes);
        same_block(&bytes);
        same_response(&bytes);
    }
}

#[test]
fn groups_in_unknown_fields_decode_as_prost_decodes_them() {
    // Field 9 as a group: a varint field, a nested group, and the end.
    let group = [0x4b, 0x08, 0x01, 0x53, 0x10, 0x02, 0x54, 0x4c, 0x30, 0x05];
    same_request(&group);
    assert_eq!(BlockRequest::decode(&group).unwrap().max_blocks, 5);
    // The same group, never closed.
    same_request(&group[..7]);
    assert!(BlockRequest::decode(&group[..7]).is_err());
    // Inside a block of a response.
    let mut response = vec![0x0a, group.len() as u8];
    response.extend_from_slice(&group);
    same_response(&response);
}
