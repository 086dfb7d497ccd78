use file_chunk_sender::codec::{decode_frame, decode_u64_be, encode_frame, encode_u64_be, read_u64_at};
use file_chunk_sender::config::{ClientConfig, ServerConfig, MB};
use file_chunk_sender::declared::{decode_declared, encode_declared, plan_chunks, TransferSession};
use file_chunk_sender::error::TransferError;
use file_chunk_sender::sentinel::{decode_sentinel, encode_sentinel, frame_payload_len};

fn sample(n: usize) -> Vec<u8> {
    let mut v = Vec::new();
    for i in 0..n {
        v.push((i * 31 + 7) as u8);
    }
    v
}

#[test]
fn u64_header_is_big_endian() {
    assert_eq!(encode_u64_be(0x0102_0304_0506_0708), [1, 2, 3, 4, 5, 6, 7, 8]);
    assert_eq!(encode_u64_be(0), [0; 8]);
    assert_eq!(encode_u64_be(1024), [0, 0, 0, 0, 0, 0, 4, 0]);
    assert_eq!(encode_u64_be(u64::MAX), [255; 8]);
    assert_eq!(decode_u64_be(&[1, 2, 3, 4, 5, 6, 7, 8]), 0x0102_0304_0506_0708);
    assert_eq!(decode_u64_be(&[0, 0, 0, 0, 0, 0, 9, 196]), 2500);
    assert_eq!(read_u64_at(&[9, 9, 0, 0, 0, 0, 0, 0, 3, 232], 2), 1000);
}

#[test]
fn u64_header_round_trip() {
    for n in [0u64, 1, 255, 256, 65535, 1 << 32, (1 << 63) + 12345, u64::MAX] {
        assert_eq!(decode_u64_be(&encode_u64_be(n)), n);
    }
}

#[test]
fn frame_round_trip_keeps_payload() {
    for len in [0usize, 1, 7, 8, 9, 1000, 4096] {
        let payload = sample(len);
        let frame = encode_frame(&payload);
        assert_eq!(frame.len(), 8 + len);
        assert_eq!(&frame[..8], &encode_u64_be(len as u64)[..]);
        let (decoded, used) = decode_frame(&frame).unwrap();
        assert_eq!(decoded, payload);
        assert_eq!(decoded.len(), len);
        assert_eq!(used, 8 + len);
    }
}

#[test]
fn frame_decode_ignores_what_follows() {
    let mut wire = encode_frame(&[5, 6, 7]);
    wire.extend_from_slice(&[1, 2, 3, 4]);
    assert_eq!(decode_frame(&wire), Some((vec![5, 6, 7], 11)));
}

#[test]
fn truncated_frame_is_rejected() {
    assert_eq!(decode_frame(&[0, 0, 0]), None);
    let frame = encode_frame(&[1, 2, 3, 4]);
    assert_eq!(decode_frame(&frame[..11]), None);
    assert_eq!(decode_frame(&[0, 0, 0, 0, 0, 0, 0, 0]), Some((vec![], 8)));
}

#[test]
fn payload_len_from_header() {
    assert_eq!(frame_payload_len(&[0; 8]), None);
    assert_eq!(frame_payload_len(&[0, 0, 0, 0, 0, 0, 3, 232]), Some(1000));
}

#[test]
fn declared_empty_file_sends_headers_only() {
    let wire = encode_declared(&[], 1024).unwrap();
    assert_eq!(wire, vec![0, 0, 0, 0, 0, 0, 0, 0, 0, 0, 0, 0, 0, 0, 4, 0]);
    assert_eq!(plan_chunks(0, 1024), Ok(vec![]));
    assert_eq!(decode_declared(&wire), Ok(vec![]));
    let s = TransferSession::from_header(&wire).unwrap();
    assert_eq!(s.total_size(), 0);
    assert_eq!(s.chunk_size(), 1024);
    assert!(s.is_complete());
    assert_eq!(s.next_chunk_len(), 0);
}

#[test]
fn declared_short_final_chunk() {
    assert_eq!(plan_chunks(2500, 1000), Ok(vec![1000, 1000, 500]));
    let mut s = TransferSession::new(2500, 1000).unwrap();
    let mut seen = Vec::new();
    while !s.is_complete() {
        let n = s.next_chunk_len();
        seen.push(n);
        s.record_chunk(n);
    }
    assert_eq!(seen, vec![1000, 1000, 500]);
    assert_eq!(s.bytes_done(), 2500);
    assert_eq!(s.next_chunk_len(), 0);
    let data = sample(2500);
    let wire = encode_declared(&data, 1000).unwrap();
    assert_eq!(wire.len(), 16 + 2500);
    assert_eq!(decode_declared(&wire), Ok(data));
}

#[test]
fn declared_exact_multiple_has_no_extra_chunk() {
    assert_eq!(plan_chunks(2000, 1000), Ok(vec![1000, 1000]));
    let mut s = TransferSession::new(2000, 1000).unwrap();
    let mut count = 0;
    while !s.is_complete() {
        let n = s.next_chunk_len();
        assert_eq!(n, 1000);
        s.record_chunk(n);
        count += 1;
    }
    assert_eq!(count, 2);
    assert_eq!(s.bytes_done(), 2000);
    let data = sample(2000);
    let wire = encode_declared(&data, 1000).unwrap();
    assert_eq!(decode_declared(&wire), Ok(data));
}

#[test]
fn declared_chunk_count_law() {
    for total in [0u64, 1, 2, 9, 10, 11, 99, 100, 101, 2500] {
        for chunk in [1u64, 3, 10, 100, 1000, 5000] {
            let sizes = plan_chunks(total, chunk).unwrap();
            let count = ((total + chunk - 1) / chunk) as usize;
            assert_eq!(sizes.len(), count);
            assert_eq!(sizes.iter().sum::<u64>(), total);
            if total > 0 {
                let last = *sizes.last().unwrap();
                assert_eq!(last, total - chunk * (count as u64 - 1));
                assert!(last > 0 && last <= chunk);
                assert!(sizes[..count - 1].iter().all(|&c| c == chunk));
            }
        }
    }
}

#[test]
fn declared_round_trip() {
    for len in [0usize, 1, 5, 999, 1000, 1001, 3000] {
        for chunk in [1u64, 7, 1000, 4096] {
            let data = sample(len);
            let wire = encode_declared(&data, chunk).unwrap();
            assert_eq!(&wire[..8], &encode_u64_be(len as u64)[..]);
            assert_eq!(&wire[8..16], &encode_u64_be(chunk)[..]);
            assert_eq!(decode_declared(&wire), Ok(data));
        }
    }
}

#[test]
fn declared_header_bytes() {
    let s = TransferSession::new(2500, 1000).unwrap();
    assert_eq!(
        s.header(),
        vec![0, 0, 0, 0, 0, 0, 9, 196, 0, 0, 0, 0, 0, 0, 3, 232]
    );
}

#[test]
fn declared_errors() {
    assert_eq!(TransferSession::new(10, 0).err(), Some(TransferError::ZeroChunkSize));
    assert_eq!(plan_chunks(10, 0), Err(TransferError::ZeroChunkSize));
    assert_eq!(encode_declared(&[1, 2], 0), Err(TransferError::ZeroChunkSize));
    assert_eq!(TransferSession::from_header(&[0; 15]).err(), Some(TransferError::Framing));
    assert_eq!(decode_declared(&[0; 10]), Err(TransferError::Framing));
    let mut zero_chunk = encode_u64_be(3).to_vec();
    zero_chunk.extend_from_slice(&[0; 8]);
    zero_chunk.extend_from_slice(&[1, 2, 3]);
    assert_eq!(decode_declared(&zero_chunk), Err(TransferError::ZeroChunkSize));
    let wire = encode_declared(&sample(2500), 1000).unwrap();
    assert_eq!(decode_declared(&wire[..16 + 2499]), Err(TransferError::Framing));
    assert_eq!(decode_declared(&wire[..16 + 1000]), Err(TransferError::Framing));
}

#[test]
fn sentinel_empty_file_sends_only_sentinel() {
    let wire = encode_sentinel(&[], 1024).unwrap();
    assert_eq!(wire, vec![0; 8]);
    assert_eq!(decode_sentinel(&wire), Ok((vec![], 8)));
}

#[test]
fn sentinel_frames_layout() {
    let data = sample(2500);
    let wire = encode_sentinel(&data, 1000).unwrap();
    assert_eq!(wire.len(), 3 * 8 + 2500 + 8);
    assert_eq!(frame_payload_len(&[0, 0, 0, 0, 0, 0, 3, 232]), Some(1000));
    let mut pos = 0;
    let mut lens = Vec::new();
    loop {
        let (payload, used) = decode_frame(&wire[pos..]).unwrap();
        lens.push(payload.len());
        pos += used;
        if payload.is_empty() {
            break;
        }
    }
    assert_eq!(lens, vec![1000, 1000, 500, 0]);
    assert_eq!(pos, wire.len());
}

#[test]
fn sentinel_round_trip() {
    for len in [0usize, 1, 5, 999, 1000, 1001, 3000] {
        for chunk in [1u64, 7, 1000, 4096] {
            let data = sample(len);
            let wire = encode_sentinel(&data, chunk).unwrap();
            let zero_frames = {
                let mut pos = 0;
                let mut zeros = 0;
                while pos < wire.len() {
                    let (p, used) = decode_frame(&wire[pos..]).unwrap();
                    if p.is_empty() {
                        zeros += 1;
                    }
                    pos += used;
                }
                zeros
            };
            assert_eq!(zero_frames, 1);
            assert_eq!(decode_sentinel(&wire), Ok((data, wire.len())));
        }
    }
}

#[test]
fn sentinel_receiver_accepts_uneven_frames() {
    let mut wire = encode_frame(&[1, 2, 3]);
    wire.extend_from_slice(&encode_frame(&[4]));
    wire.extend_from_slice(&encode_frame(&[5, 6]));
    wire.extend_from_slice(&encode_frame(&[]));
    let n = wire.len();
    wire.extend_from_slice(&[42, 42]);
    assert_eq!(decode_sentinel(&wire), Ok((vec![1, 2, 3, 4, 5, 6], n)));
}

#[test]
fn sentinel_errors() {
    assert_eq!(encode_sentinel(&[1], 0), Err(TransferError::ZeroChunkSize));
    let wire = encode_sentinel(&sample(20), 8).unwrap();
    assert_eq!(decode_sentinel(&wire[..wire.len() - 1]), Err(TransferError::Framing));
    assert_eq!(decode_sentinel(&wire[..12]), Err(TransferError::Framing));
    assert_eq!(decode_sentinel(&[]), Err(TransferError::Framing));
}

#[test]
fn config_defaults() {
    let s = ServerConfig::default();
    assert_eq!(s.ip(), "127.0.0.1:3000");
    assert_eq!(s.file_path(), "test");
    assert_eq!(s.chunk_size(), 1024 * 1024);
    assert_eq!(MB, 1_048_576);
    let c = ClientConfig::default();
    assert_eq!(c.ip(), "127.0.0.1:3000");
    assert_eq!(c.save_path(), "./recieve");
}

#[test]
fn config_fields() {
    let s = ServerConfig::new("10.0.0.1:9000".to_string(), "data.bin".to_string(), 4096);
    assert_eq!(s.ip(), "10.0.0.1:9000");
    assert_eq!(s.file_path(), "data.bin");
    assert_eq!(s.chunk_size(), 4096);
    let c = ClientConfig::new("10.0.0.1:9000".to_string(), "out.bin".to_string());
    assert_eq!(c.ip(), "10.0.0.1:9000");
    assert_eq!(c.save_path(), "out.bin");
}

#[test]
fn sender_step_closes_on_empty_read() {
    let (frame, last) = file_chunk_sender::sentinel::frame_for_read(&[9, 8, 7]);
    assert_eq!(frame, vec![0, 0, 0, 0, 0, 0, 0, 3, 9, 8, 7]);
    assert!(!last);
    let (frame, last) = file_chunk_sender::sentinel::frame_for_read(&[]);
    assert_eq!(frame, vec![0; 8]);
    assert!(last);
}
