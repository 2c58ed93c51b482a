//! Error behaviour of the instruction decoder: short buffers, unknown tags,
//! malformed payloads, trailing bytes, and the exact wire form of one
//! instruction.

use drift_ingest::base58::decode_instruction;
use drift_ingest::instructions::{pack, unpack, DriftV2Instruction};
use drift_ingest::payloads::{CancelOrder, Deposit};
use drift_ingest::DecodeError;

const DEPOSIT_TAG_BYTES: [u8; 8] = [242, 35, 198, 137, 82, 225, 242, 182];
const CANCEL_ORDER_TAG_BYTES: [u8; 8] = [95, 129, 237, 240, 8, 49, 223, 132];

fn sample_deposit() -> DriftV2Instruction {
    DriftV2Instruction::Deposit(Deposit { market_index: 7, amount: 1000, reduce_only: true })
}

#[test]
fn empty_buffer_is_invalid_encoding() {
    let r = unpack(&[]);
    assert_eq!(r, Err(DecodeError::InvalidEncoding));
}

#[test]
fn short_buffers_are_invalid_encoding() {
    for n in 0..8usize {
        let buf = vec![242u8; n];
        assert_eq!(unpack(&buf), Err(DecodeError::InvalidEncoding));
    }
}

#[test]
fn unknown_tag_is_unknown_instruction() {
    let mut buf = vec![0u8; 8];
    assert_eq!(unpack(&buf), Err(DecodeError::UnknownInstruction));
    buf.extend_from_slice(&[1, 2, 3, 4]);
    assert_eq!(unpack(&buf), Err(DecodeError::UnknownInstruction));
}

#[test]
fn deposit_packs_to_exact_bytes() {
    let bytes = pack(&sample_deposit());
    let mut expected = DEPOSIT_TAG_BYTES.to_vec();
    expected.extend_from_slice(&[7, 0]);
    expected.extend_from_slice(&[232, 3, 0, 0, 0, 0, 0, 0]);
    expected.push(1);
    assert_eq!(bytes, expected);
}

#[test]
fn deposit_decodes_from_exact_bytes() {
    let mut buf = DEPOSIT_TAG_BYTES.to_vec();
    buf.extend_from_slice(&[7, 0]);
    buf.extend_from_slice(&[232, 3, 0, 0, 0, 0, 0, 0]);
    buf.push(1);
    assert_eq!(unpack(&buf), Ok(sample_deposit()));
}

#[test]
fn truncated_payload_is_invalid_encoding() {
    let bytes = pack(&sample_deposit());
    assert_eq!(unpack(&bytes[..bytes.len() - 1]), Err(DecodeError::InvalidEncoding));
}

#[test]
fn trailing_bytes_are_invalid_encoding() {
    let mut bytes = pack(&sample_deposit());
    bytes.push(0);
    assert_eq!(unpack(&bytes), Err(DecodeError::InvalidEncoding));
}

#[test]
fn bad_bool_byte_is_invalid_encoding() {
    let mut buf = DEPOSIT_TAG_BYTES.to_vec();
    buf.extend_from_slice(&[7, 0]);
    buf.extend_from_slice(&[232, 3, 0, 0, 0, 0, 0, 0]);
    buf.push(2);
    assert_eq!(unpack(&buf), Err(DecodeError::InvalidEncoding));
}

#[test]
fn bad_option_flag_is_invalid_encoding() {
    let mut buf = CANCEL_ORDER_TAG_BYTES.to_vec();
    buf.extend_from_slice(&[2, 9, 9, 9, 9]);
    assert_eq!(unpack(&buf), Err(DecodeError::InvalidEncoding));
}

#[test]
fn cancel_order_empty_payload_is_invalid_encoding() {
    let buf = CANCEL_ORDER_TAG_BYTES.to_vec();
    assert_eq!(unpack(&buf), Err(DecodeError::InvalidEncoding));
}

#[test]
fn cancel_order_none_decodes() {
    let mut buf = CANCEL_ORDER_TAG_BYTES.to_vec();
    buf.push(0);
    assert_eq!(
        unpack(&buf),
        Ok(DriftV2Instruction::CancelOrder(CancelOrder { order_id: None }))
    );
}

#[test]
fn decode_instruction_accepts_base58_form() {
    let bytes = pack(&sample_deposit());
    let s = bs58::encode(&bytes).into_string();
    assert_eq!(decode_instruction(&s), Ok(sample_deposit()));
}

#[test]
fn decode_instruction_rejects_invalid_base58() {
    assert_eq!(decode_instruction("0OIl"), Err(DecodeError::InvalidEncoding));
}

#[test]
fn decode_instruction_rejects_short_decoded_buffer() {
    let s = bs58::encode(&[1u8, 2, 3]).into_string();
    assert_eq!(decode_instruction(&s), Err(DecodeError::InvalidEncoding));
}
