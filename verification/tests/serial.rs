//! The serial protocol, from frames to submit queues.

use sptorch::serial::command::{
    Matmul32x32Command, ResultRead32Command, ResultValue32Payload, ScratchRead32Command,
    ScratchValue32Payload, ScratchWrite32Command, MATMUL32X32_FLAG_ACCUMULATE,
    MATMUL32X32_FLAG_CLEAR_OUTPUT, MATMUL32X32_FLAG_LAST_K_TILE,
};
use sptorch::serial::error::SerialProtocolError;
use sptorch::serial::frame::{
    SerialFrame, SERIAL_ALIGNMENT, SERIAL_HEADER_LEN, SERIAL_MAGIC, SERIAL_MAX_PAYLOAD_LEN,
    SERIAL_VERSION,
};
use sptorch::serial::loopback::LoopbackSerialTransport;
use sptorch::serial::opcode::{SerialOpcode, SerialStatusCode};
use sptorch::serial::plan::{plan_matmul32x32_commands, MatmulMemoryLayout};
use sptorch::serial::queue::SerialSubmitQueue;
use sptorch::serial::status::{validate_status_response, SerialStatusPayload};
use sptorch::serial::stream::SerialStreamDecoder;

#[test]
fn serial_frame_roundtrips_metadata_and_payload() {
    let frame = SerialFrame::with_flags(SerialOpcode::Ping, 42, 0x0003, b"hello".to_vec());
    let encoded = frame.encode().unwrap();
    let decoded = SerialFrame::decode(&encoded).unwrap();
    assert_eq!(decoded, frame);
}

#[test]
fn serial_frame_is_eight_byte_aligned() {
    let frame = SerialFrame::new(SerialOpcode::Ack, 7, vec![1, 2, 3]);
    let encoded = frame.encode().unwrap();
    assert_eq!(encoded.len() % SERIAL_ALIGNMENT, 0);
}

#[test]
fn serial_frame_rejects_length_mismatch() {
    let frame = SerialFrame::new(SerialOpcode::Ping, 1, b"abc".to_vec());
    let mut encoded = frame.encode().unwrap();
    encoded.extend_from_slice(&[0u8; SERIAL_ALIGNMENT]);
    let err = SerialFrame::decode(&encoded).unwrap_err();
    assert!(matches!(err, SerialProtocolError::LengthMismatch { .. }));
}

#[test]
fn serial_frame_rejects_checksum_corruption() {
    let frame = SerialFrame::new(SerialOpcode::Ping, 1, b"abc".to_vec());
    let mut encoded = frame.encode().unwrap();
    encoded[SERIAL_HEADER_LEN] ^= 0x55;
    let err = SerialFrame::decode(&encoded).unwrap_err();
    assert!(matches!(err, SerialProtocolError::ChecksumMismatch { .. }));
}

#[test]
fn serial_frame_rejects_non_zero_padding() {
    let frame = SerialFrame::new(SerialOpcode::Ping, 1, b"a".to_vec());
    let mut encoded = frame.encode().unwrap();
    let last = encoded.last_mut().unwrap();
    *last = 1;
    let err = SerialFrame::decode(&encoded).unwrap_err();
    assert_eq!(err, SerialProtocolError::NonZeroPadding);
}

#[test]
fn serial_frame_rejects_non_zero_header_reserved() {
    let frame = SerialFrame::new(SerialOpcode::Ping, 1, b"abc".to_vec());
    let mut encoded = frame.encode().unwrap();
    encoded[14] = 1;
    let err = SerialFrame::decode(&encoded).unwrap_err();
    assert_eq!(
        err,
        SerialProtocolError::NonZeroReservedField {
            field: "frame_header.reserved"
        }
    );
}

#[test]
fn serial_status_payload_roundtrips() {
    let payload = SerialStatusPayload {
        code: SerialStatusCode::Busy,
        detail: 42,
    };
    let encoded = payload.encode();
    assert_eq!(SerialStatusPayload::decode(&encoded).unwrap(), payload);
}

#[test]
fn serial_status_payload_rejects_reserved_bits() {
    let mut encoded = SerialStatusPayload::ok().encode();
    encoded[2] = 1;
    let err = SerialStatusPayload::decode(&encoded).unwrap_err();
    assert_eq!(
        err,
        SerialProtocolError::NonZeroReservedField {
            field: "status_payload.reserved"
        }
    );
}

#[test]
fn serial_status_payload_rejects_unknown_status_code() {
    let mut encoded = [0u8; SerialStatusPayload::LEN];
    encoded[0..2].copy_from_slice(&0xffffu16.to_le_bytes());
    let err = SerialStatusPayload::decode(&encoded).unwrap_err();
    assert_eq!(err, SerialProtocolError::UnknownStatusCode(0xffff));
}

#[test]
fn status_response_accepts_ack_ok_only() {
    let command = SerialFrame::new(SerialOpcode::Matmul32x32, 7, vec![0; Matmul32x32Command::PAYLOAD_LEN]);
    let response = SerialFrame::ack(7, SerialStatusPayload::ok());

    let status = validate_status_response(&command, &response).unwrap();
    assert_eq!(status.code, SerialStatusCode::Success);
}

#[test]
fn status_response_rejects_busy_ack() {
    let command = SerialFrame::new(SerialOpcode::Matmul32x32, 7, vec![0; Matmul32x32Command::PAYLOAD_LEN]);
    let response = SerialFrame::ack(
        7,
        SerialStatusPayload {
            code: SerialStatusCode::Busy,
            detail: 0x1234,
        },
    );

    let err = validate_status_response(&command, &response).unwrap_err();
    assert_eq!(
        err,
        SerialProtocolError::CommandRejected {
            command_opcode: SerialOpcode::Matmul32x32,
            response_opcode: SerialOpcode::Ack,
            sequence: 7,
            status: SerialStatusCode::Busy,
            detail: 0x1234,
        }
    );
}

#[test]
fn submit_queue_tracks_depth_and_high_watermark() {
    let mut queue = SerialSubmitQueue::new(2);
    let first_sequence = queue.reserve_sequences(2);
    let frames = [
        SerialFrame::new(SerialOpcode::Ping, first_sequence, Vec::new()),
        SerialFrame::new(SerialOpcode::Ping, first_sequence.wrapping_add(1), Vec::new()),
    ];

    let first = queue
        .submit(&frames[0], |frame| {
            Ok(SerialFrame::ack(frame.sequence, SerialStatusPayload::ok()))
        })
        .unwrap();
    let second = queue
        .submit(&frames[1], |frame| {
            Ok(SerialFrame::ack(frame.sequence, SerialStatusPayload::ok()))
        })
        .unwrap();

    assert_eq!(first.command.sequence, 0);
    assert_eq!(second.command.sequence, 1);
    assert_eq!(queue.next_sequence(), 2);
    assert_eq!(queue.queue_depth(), 0);
    assert_eq!(queue.high_watermark(), 1);
    assert_eq!(first.queue_depth_before, 0);
    assert_eq!(first.queue_depth_after_enqueue, 1);
    assert_eq!(first.queue_depth_after_submit, 0);
}

#[test]
fn submit_queue_drains_after_transport_error() {
    let mut queue = SerialSubmitQueue::new(1);
    let frame = SerialFrame::new(SerialOpcode::Ping, 0, Vec::new());

    let err = queue
        .submit(&frame, |_| Err(SerialProtocolError::BadMagic { found: [0x00, 0x00] }))
        .unwrap_err();

    assert_eq!(err, SerialProtocolError::BadMagic { found: [0x00, 0x00] });
    assert_eq!(queue.queue_depth(), 0);
    assert_eq!(queue.high_watermark(), 1);
}

#[test]
fn submit_queue_rejects_full_capacity() {
    let mut queue = SerialSubmitQueue::new(0);
    let frame = SerialFrame::new(SerialOpcode::Ping, 0, Vec::new());

    let err = queue
        .submit(&frame, |_| Ok(SerialFrame::ack(0, SerialStatusPayload::ok())))
        .unwrap_err();

    assert_eq!(err, SerialProtocolError::QueueFull { capacity: 0 });
    assert_eq!(queue.queue_depth(), 0);
}

#[test]
fn serial_stream_decoder_waits_for_fragmented_frame() {
    let frame = SerialFrame::new(SerialOpcode::Ping, 7, b"fragmented".to_vec());
    let encoded = frame.encode().unwrap();
    let split = 5;
    let mut decoder = SerialStreamDecoder::new();

    assert!(decoder.push_bytes(&encoded[..split]).unwrap().is_empty());
    assert_eq!(decoder.pending_need().unwrap().unwrap().1, split);

    let frames = decoder.push_bytes(&encoded[split..]).unwrap();
    assert_eq!(frames, vec![frame]);
    assert_eq!(decoder.buffered_len(), 0);
}

#[test]
fn serial_stream_decoder_recovers_after_noise() {
    let frame = SerialFrame::new(SerialOpcode::Pong, 8, b"clean".to_vec());
    let mut stream = vec![0xaa, 0xbb, b'S'];
    stream.extend_from_slice(&[0x00, 0x11]);
    stream.extend_from_slice(&frame.encode().unwrap());

    let mut decoder = SerialStreamDecoder::new();
    let frames = decoder.push_bytes(&stream).unwrap();
    assert_eq!(frames, vec![frame]);
    assert_eq!(decoder.buffered_len(), 0);
}

#[test]
fn serial_stream_decoder_parses_multiple_frames() {
    let first = SerialFrame::new(SerialOpcode::Ping, 1, b"a".to_vec());
    let second = SerialFrame::new(SerialOpcode::Ack, 2, SerialStatusPayload::ok().encode().to_vec());
    let mut stream = first.encode().unwrap();
    stream.extend_from_slice(&second.encode().unwrap());

    let mut decoder = SerialStreamDecoder::new();
    let frames = decoder.push_bytes(&stream).unwrap();
    assert_eq!(frames, vec![first, second]);
}

#[test]
fn serial_stream_decoder_preserves_split_magic_prefix() {
    let frame = SerialFrame::new(SerialOpcode::Ping, 3, Vec::new());
    let mut decoder = SerialStreamDecoder::new();

    assert!(decoder.push_bytes(&[0xff, b'S']).unwrap().is_empty());
    assert_eq!(decoder.buffered_len(), 1);

    let encoded = frame.encode().unwrap();
    let frames = decoder.push_bytes(&encoded[1..]).unwrap();
    assert_eq!(frames, vec![frame]);
}

#[test]
fn frames_come_through_however_they_are_cut() {
    let frames = vec![
        SerialFrame::new(SerialOpcode::Ping, 4, b"SP in the middle".to_vec()),
        SerialFrame::new(SerialOpcode::Pong, 5, Vec::new()),
        SerialFrame::new(SerialOpcode::Ping, 6, vec![b'S'; 9]),
    ];
    let mut stream = vec![1, 2, b'S', 3];
    for frame in &frames {
        stream.extend_from_slice(&frame.encode().unwrap());
    }
    for size in [1, 2, 3, 7, 20, 33, stream.len()] {
        let mut decoder = SerialStreamDecoder::new();
        let mut given = Vec::new();
        for piece in stream.chunks(size) {
            given.extend(decoder.push_bytes(piece).unwrap());
            given.extend(decoder.push_bytes(&[]).unwrap());
        }
        assert_eq!(given, frames);
        assert_eq!(decoder.buffered_len(), 0);
    }
}

#[test]
fn a_last_byte_is_kept_only_until_it_cannot_open_a_frame() {
    let mut at_once = SerialStreamDecoder::new();
    assert!(at_once.push_bytes(&[1, 2, 5]).unwrap().is_empty());
    let mut in_pieces = SerialStreamDecoder::new();
    assert!(in_pieces.push_bytes(&[1, 2]).unwrap().is_empty());
    assert!(in_pieces.push_bytes(&[5]).unwrap().is_empty());
    assert!(at_once.buffered_len() <= in_pieces.buffered_len());
    let frame = SerialFrame::new(SerialOpcode::Ping, 1, b"x".to_vec());
    let encoded = frame.encode().unwrap();
    assert_eq!(at_once.push_bytes(&encoded).unwrap(), vec![frame.clone()]);
    assert_eq!(in_pieces.push_bytes(&encoded).unwrap(), vec![frame]);
}

#[test]
fn a_damaged_frame_costs_no_other() {
    let bad = SerialFrame::new(SerialOpcode::Ping, 1, b"payload".to_vec()).encode().unwrap();
    let good = SerialFrame::new(SerialOpcode::Pong, 2, b"behind".to_vec());
    for i in 16..27 {
        let mut stream = vec![9, 8];
        stream.extend_from_slice(&bad);
        stream[2 + i] ^= 0x40;
        stream.extend_from_slice(&good.encode().unwrap());
        let mut decoder = SerialStreamDecoder::new();
        let err = decoder.push_bytes(&stream).unwrap_err();
        assert!(matches!(err, SerialProtocolError::ChecksumMismatch { .. }));
        assert_eq!(decoder.buffered_len(), good.encode().unwrap().len());
        assert_eq!(decoder.push_bytes(&[]).unwrap(), vec![good.clone()]);
        assert_eq!(decoder.buffered_len(), 0);
    }
}

#[test]
fn serial_stream_decoder_rejects_oversized_declared_payload() {
    let mut header = vec![0u8; SERIAL_HEADER_LEN];
    header[0..2].copy_from_slice(&SERIAL_MAGIC);
    header[2] = SERIAL_VERSION;
    header[3] = SerialOpcode::Ping.as_u8();
    header[8..12].copy_from_slice(&((SERIAL_MAX_PAYLOAD_LEN as u32) + 1).to_le_bytes());

    let mut decoder = SerialStreamDecoder::new();
    let err = decoder.push_bytes(&header).unwrap_err();
    assert_eq!(
        err,
        SerialProtocolError::PayloadTooLarge {
            actual: SERIAL_MAX_PAYLOAD_LEN + 1,
            max: SERIAL_MAX_PAYLOAD_LEN
        }
    );
}

#[test]
fn matmul32x32_command_payload_roundtrips() {
    let mut command = Matmul32x32Command::new(9, 0x1000, 0x2000, 0x3000);
    command.flags = 0x5a5a_0001;
    let payload = command.encode_payload();
    let decoded = Matmul32x32Command::decode_payload(&payload).unwrap();
    assert_eq!(decoded, command);
    assert_eq!(decoded.shape(), (32, 32, 32));
}

#[test]
fn matmul32x32_command_wraps_into_frame() {
    let command = Matmul32x32Command::new(2, 128, 4096, 8192);
    let frame = command.into_frame(99);
    let decoded_frame = SerialFrame::decode(&frame.encode().unwrap()).unwrap();
    let decoded_command = Matmul32x32Command::decode_payload(&decoded_frame.payload).unwrap();
    assert_eq!(decoded_frame.opcode, SerialOpcode::Matmul32x32);
    assert_eq!(decoded_frame.sequence, 99);
    assert_eq!(decoded_command, command);
}

#[test]
fn matmul32x32_smoke_result_summary_is_stable() {
    let mut command = Matmul32x32Command::new(
        0x0102_0304,
        0x1112_1314_1516_1718,
        0x2122_2324_2526_2728,
        0x3132_3334_3536_3738,
    );
    command.flags = MATMUL32X32_FLAG_CLEAR_OUTPUT | MATMUL32X32_FLAG_LAST_K_TILE;

    assert_eq!(
        command.smoke_result_summary(),
        ResultValue32Payload::new(0x3536_3738, 0x0506_070d)
    );
}

#[test]
fn scratch_write32_command_roundtrips() {
    let command = ScratchWrite32Command::new(0x44, 0x1122_3344);
    let frame = command.into_frame(77);
    let decoded_frame = SerialFrame::decode(&frame.encode().unwrap()).unwrap();
    let decoded_command = ScratchWrite32Command::decode_payload(&decoded_frame.payload).unwrap();
    assert_eq!(decoded_frame.opcode, SerialOpcode::ScratchWrite32);
    assert_eq!(decoded_frame.sequence, 77);
    assert_eq!(decoded_command, command);
}

#[test]
fn scratch_read32_command_roundtrips() {
    let command = ScratchRead32Command::new(0x44);
    let frame = command.into_frame(78);
    let decoded_frame = SerialFrame::decode(&frame.encode().unwrap()).unwrap();
    let decoded_command = ScratchRead32Command::decode_payload(&decoded_frame.payload).unwrap();
    assert_eq!(decoded_frame.opcode, SerialOpcode::ScratchRead32);
    assert_eq!(decoded_frame.sequence, 78);
    assert_eq!(decoded_command, command);
}

#[test]
fn scratch_value32_payload_roundtrips() {
    let payload = ScratchValue32Payload::new(0x44, 0x1122_3344);
    let frame = payload.into_frame(79);
    let decoded_frame = SerialFrame::decode(&frame.encode().unwrap()).unwrap();
    let decoded_payload = ScratchValue32Payload::decode_payload(&decoded_frame.payload).unwrap();
    assert_eq!(decoded_frame.opcode, SerialOpcode::ScratchValue32);
    assert_eq!(decoded_frame.sequence, 79);
    assert_eq!(decoded_payload, payload);
}

#[test]
fn result32_payloads_roundtrip() {
    let command = ResultRead32Command::new(0x88);
    let frame = command.into_frame(80);
    let decoded_frame = SerialFrame::decode(&frame.encode().unwrap()).unwrap();
    let decoded_command = ResultRead32Command::decode_payload(&decoded_frame.payload).unwrap();
    assert_eq!(decoded_frame.opcode, SerialOpcode::ResultRead32);
    assert_eq!(decoded_frame.sequence, 80);
    assert_eq!(decoded_command, command);

    let payload = ResultValue32Payload::new(0x88, 0xdead_beef);
    let frame = payload.into_frame(81);
    let decoded_frame = SerialFrame::decode(&frame.encode().unwrap()).unwrap();
    let decoded_payload = ResultValue32Payload::decode_payload(&decoded_frame.payload).unwrap();
    assert_eq!(decoded_frame.opcode, SerialOpcode::ResultValue32);
    assert_eq!(decoded_frame.sequence, 81);
    assert_eq!(decoded_payload, payload);
}

#[test]
fn matmul32x32_plan_tiles_64_cube_in_stable_order() {
    let layout = MatmulMemoryLayout::row_major(64, 64, 64, 0x1000, 0x2000, 0x3000, 4);
    let plan = plan_matmul32x32_commands(64, 64, 64, layout).unwrap();

    assert_eq!(plan.tiles_m, 2);
    assert_eq!(plan.tiles_k, 2);
    assert_eq!(plan.tiles_n, 2);
    assert_eq!(plan.command_count(), 8);

    let first = plan.commands[0];
    assert_eq!(first.tile_id, 0);
    assert_eq!(first.a_offset, 0x1000);
    assert_eq!(first.b_offset, 0x2000);
    assert_eq!(first.out_offset, 0x3000);
    assert_eq!(first.flags, MATMUL32X32_FLAG_CLEAR_OUTPUT);

    let second_k = plan.commands[1];
    assert_eq!(second_k.a_offset, 0x1000 + 32 * 4);
    assert_eq!(second_k.b_offset, 0x2000 + 32 * 64 * 4);
    assert_eq!(second_k.out_offset, 0x3000);
    assert_eq!(
        second_k.flags,
        MATMUL32X32_FLAG_ACCUMULATE | MATMUL32X32_FLAG_LAST_K_TILE
    );

    let next_n_tile = plan.commands[2];
    assert_eq!(next_n_tile.b_offset, 0x2000 + 32 * 4);
    assert_eq!(next_n_tile.out_offset, 0x3000 + 32 * 4);

    let next_m_tile = plan.commands[4];
    assert_eq!(next_m_tile.a_offset, 0x1000 + 32 * 64 * 4);
    assert_eq!(next_m_tile.out_offset, 0x3000 + 32 * 64 * 4);
}

#[test]
fn matmul32x32_plan_frames_are_sequenced_and_decodable() {
    let layout = MatmulMemoryLayout::row_major(32, 32, 64, 0x1000, 0x2000, 0x3000, 4);
    let plan = plan_matmul32x32_commands(32, 32, 64, layout).unwrap();
    let frames = plan.frames(500);

    assert_eq!(frames.len(), 2);
    for (idx, frame) in frames.iter().enumerate() {
        let decoded = SerialFrame::decode(&frame.encode().unwrap()).unwrap();
        let command = Matmul32x32Command::decode_payload(&decoded.payload).unwrap();
        assert_eq!(decoded.sequence, 500 + idx as u32);
        assert_eq!(decoded.opcode, SerialOpcode::Matmul32x32);
        assert_eq!(command.tile_id, idx as u32);
    }
}

#[test]
fn matmul32x32_plan_rejects_non_tile_aligned_shape() {
    let layout = MatmulMemoryLayout::row_major(33, 32, 32, 0, 0, 0, 4);
    let err = plan_matmul32x32_commands(33, 32, 32, layout).unwrap_err();
    assert!(matches!(
        err,
        SerialProtocolError::InvalidMatmulShape { m: 33, k: 32, n: 32 }
    ));
}

#[test]
fn matmul32x32_plan_supports_row_padding_strides() {
    let layout = MatmulMemoryLayout {
        a_base: 0x1000,
        b_base: 0x2000,
        out_base: 0x3000,
        a_row_stride: 80,
        b_row_stride: 96,
        out_row_stride: 128,
        elem_size_bytes: 4,
    };
    let plan = plan_matmul32x32_commands(64, 64, 64, layout).unwrap();

    assert_eq!(plan.commands[1].a_offset, 0x1000 + 32 * 4);
    assert_eq!(plan.commands[1].b_offset, 0x2000 + 32 * 96 * 4);
    assert_eq!(plan.commands[4].a_offset, 0x1000 + 32 * 80 * 4);
    assert_eq!(plan.commands[4].out_offset, 0x3000 + 32 * 128 * 4);
}

#[test]
fn matmul32x32_plan_rejects_address_overflow() {
    let layout = MatmulMemoryLayout::row_major(64, 32, 32, u64::MAX - 4, 0, 0, 4);
    let err = plan_matmul32x32_commands(64, 32, 32, layout).unwrap_err();
    assert!(matches!(err, SerialProtocolError::MatmulAddressOverflow { .. }));
}

#[test]
fn loopback_transport_survives_10k_frames() {
    let mut transport = LoopbackSerialTransport::new();

    for seq in 0..10_000u32 {
        let frame = SerialFrame::new(SerialOpcode::Ping, seq, seq.to_le_bytes().to_vec());
        let echoed = transport.exchange(&frame.encode().unwrap()).unwrap();
        let decoded = SerialFrame::decode(&echoed).unwrap();
        assert_eq!(decoded.sequence, seq);
        assert_eq!(decoded.payload, seq.to_le_bytes());
    }

    assert_eq!(transport.frames_seen(), 10_000);
}
