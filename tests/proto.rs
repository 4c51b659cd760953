use spm::dispatch::BatchEntry;
use spm::proto::{
    decode_header, decode_message, encode_header, encode_message, Message, ProtoError, RawTensor,
    MESSAGE_MAX_SIZE, PROTO_MAGIC,
};

fn header_bytes(magic: u32, len: u32) -> Vec<u8> {
    let mut v = magic.to_be_bytes().to_vec();
    v.extend_from_slice(&len.to_be_bytes());
    v
}

#[test]
fn header_round_trip() {
    let h = encode_header(1234).unwrap();
    assert_eq!(h, header_bytes(PROTO_MAGIC, 1234));
    assert_eq!(decode_header(&h), Ok(1234));
    assert_eq!(decode_header(&header_bytes(PROTO_MAGIC, MESSAGE_MAX_SIZE)), Ok(MESSAGE_MAX_SIZE));
}

#[test]
fn header_rejects_bad_magic() {
    assert_eq!(decode_header(&header_bytes(0xdeadbeef, 10)), Err(ProtoError::BadMagic));
    // the magic is checked before the length
    assert_eq!(decode_header(&header_bytes(0, u32::MAX)), Err(ProtoError::BadMagic));
}

#[test]
fn header_rejects_oversize_and_empty() {
    assert_eq!(decode_header(&header_bytes(PROTO_MAGIC, MESSAGE_MAX_SIZE + 1)), Err(ProtoError::TooLarge));
    assert_eq!(decode_header(&header_bytes(PROTO_MAGIC, 0)), Err(ProtoError::Empty));
    assert_eq!(decode_header(&[1, 2, 3]), Err(ProtoError::Truncated));
    assert_eq!(encode_header(0), Err(ProtoError::Empty));
    assert_eq!(encode_header(MESSAGE_MAX_SIZE as usize + 1), Err(ProtoError::TooLarge));
}

fn tensor() -> RawTensor {
    RawTensor { dtype: "f16".to_string(), shape: vec![1, 4, 4096], data: vec![0, 1, 2, 255] }
}

#[test]
fn forward_batch_round_trip() {
    let m = Message::ForwardBatch {
        batch: vec![
            BatchEntry { layer_name: "model.layers.1".to_string(), position: 7, layer_index: 1 },
            BatchEntry { layer_name: "modèle.layers.2".to_string(), position: 7, layer_index: 2 },
        ],
        x: tensor(),
    };
    let bytes = encode_message(&m).unwrap();
    assert_eq!(bytes[0], 0);
    assert_eq!(&bytes[1..5], &[0, 0, 0, 2]);
    match decode_message(&bytes).unwrap() {
        Message::ForwardBatch { batch, x } => {
            assert_eq!(batch.len(), 2);
            assert_eq!(batch[1].layer_name, "modèle.layers.2");
            assert_eq!(batch[1].position, 7);
            assert_eq!(batch[1].layer_index, 2);
            assert_eq!(x.dtype, "f16");
            assert_eq!(x.shape, vec![1, 4, 4096]);
            assert_eq!(x.data, vec![0, 1, 2, 255]);
        }
        _ => panic!("wrong variant"),
    }
}

#[test]
fn tensor_and_error_round_trip() {
    let bytes = encode_message(&Message::Tensor { x: tensor() }).unwrap();
    match decode_message(&bytes).unwrap() {
        Message::Tensor { x } => assert_eq!(x.shape, vec![1, 4, 4096]),
        _ => panic!("wrong variant"),
    }
    let bytes = encode_message(&Message::Error { message: "no such layer".to_string() }).unwrap();
    assert_eq!(bytes, [vec![2, 0, 0, 0, 13], b"no such layer".to_vec()].concat());
    match decode_message(&bytes).unwrap() {
        Message::Error { message } => assert_eq!(message, "no such layer"),
        _ => panic!("wrong variant"),
    }
}

#[test]
fn malformed_payloads_are_rejected() {
    let good = encode_message(&Message::Tensor { x: tensor() }).unwrap();
    assert_eq!(decode_message(&good[..good.len() - 1]).err(), Some(ProtoError::Malformed));
    let mut long = good.clone();
    long.push(0);
    assert_eq!(decode_message(&long).err(), Some(ProtoError::Malformed));
    assert_eq!(decode_message(&[]).err(), Some(ProtoError::Malformed));
    assert_eq!(decode_message(&[7]).err(), Some(ProtoError::Malformed));
    // invalid UTF-8 in a string
    assert_eq!(decode_message(&[2, 0, 0, 0, 1, 0xff]).err(), Some(ProtoError::Malformed));
}
