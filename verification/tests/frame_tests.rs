use drax::buffered_reader::DraxTransportPipeline;
use drax::encryption::{DecryptRead, EncryptedWriter};
use drax::error::ErrorType;
use drax::frame::{FrameDecoder, FrameEncoder, FrameSizeAppender, PacketFrame};
use drax::pipeline::{link, ChainProcessor};
use drax::reader::ByteReader;

#[test]
fn passthrough_when_compression_disabled() {
    let encoder = FrameEncoder::new(-1);
    let decoder = FrameDecoder::new(-1);
    let payload = vec![1u8, 2, 3, 4];
    let encoded = encoder.process(PacketFrame { data: payload.clone() }).unwrap();
    assert_eq!(encoded, payload);
    let back = decoder.process(encoded).unwrap();
    assert_eq!(back.data, payload);
}

#[test]
fn below_threshold_round_trips_with_zero_marker() {
    let encoder = FrameEncoder::new(64);
    let decoder = FrameDecoder::new(64);
    let payload = vec![9u8, 9, 9];
    let encoded = encoder.process(PacketFrame { data: payload.clone() }).unwrap();
    assert_eq!(encoded[0], 0);
    assert_eq!(&encoded[1..], &payload[..]);
    let back = decoder.process(encoded).unwrap();
    assert_eq!(back.data, payload);
}

#[test]
fn above_threshold_round_trips_through_compression() {
    let encoder = FrameEncoder::new(8);
    let decoder = FrameDecoder::new(8);
    let payload: Vec<u8> = std::iter::repeat(7u8).take(256).collect();
    let encoded = encoder.process(PacketFrame { data: payload.clone() }).unwrap();
    // the compressed body differs from the raw payload
    assert_ne!(&encoded[..], &payload[..]);
    let back = decoder.process(encoded).unwrap();
    assert_eq!(back.data, payload);
}

#[test]
fn corrupted_declared_length_fails_decode() {
    let encoder = FrameEncoder::new(8);
    let decoder = FrameDecoder::new(8);
    let payload: Vec<u8> = (0u8..=255).collect();
    let mut encoded = encoder.process(PacketFrame { data: payload }).unwrap();
    // the declared decompressed length of 256 spans two prefix bytes;
    // corrupt it to declare a different length
    assert_eq!(encoded[0], 0x80);
    assert_eq!(encoded[1], 0x02);
    encoded[1] = 0x03;
    let e = decoder.process(encoded).unwrap_err();
    assert!(matches!(e.error_type, ErrorType::DecompressMismatch));
}

#[test]
fn frame_size_appender_prefixes_length() {
    let appender = FrameSizeAppender;
    let out = appender.process(vec![5u8, 6, 7]).unwrap();
    assert_eq!(out, vec![3, 5, 6, 7]);
}

#[test]
fn linked_stages_compose() {
    let chain = link(FrameEncoder::new(-1), FrameSizeAppender);
    let out = chain.process(PacketFrame { data: vec![1, 2] }).unwrap();
    assert_eq!(out, vec![2, 1, 2]);
    let (encoder, _appender) = chain.into_outer();
    let again = encoder.process(PacketFrame { data: vec![9] }).unwrap();
    assert_eq!(again, vec![9]);
}

#[test]
fn buffered_reader_assembles_frames_from_one_chunk() {
    let mut reader = DraxTransportPipeline::new(FrameDecoder::new(-1), 1024);
    // frame: length prefix 3, then payload [10, 11, 12]
    let wire = vec![3u8, 10, 11, 12];
    let got = reader.read_transport_packet(&wire).unwrap();
    assert_eq!(got.unwrap().data, vec![10, 11, 12]);
}

#[test]
fn buffered_reader_assembles_frames_from_tiny_chunks() {
    let mut whole_reader = DraxTransportPipeline::new(FrameDecoder::new(-1), 1024);
    let wire = vec![3u8, 10, 11, 12];
    let expected = whole_reader.read_transport_packet(&wire).unwrap().unwrap().data;

    let mut chunked_reader = DraxTransportPipeline::new(FrameDecoder::new(-1), 1024);
    let mut result = None;
    for byte in wire {
        if let Some(frame) = chunked_reader.read_transport_packet(&vec![byte]).unwrap() {
            result = Some(frame.data);
        }
    }
    assert_eq!(result.unwrap(), expected);
}

#[test]
fn buffered_reader_keeps_surplus_for_the_next_frame() {
    let mut reader = DraxTransportPipeline::new(FrameDecoder::new(-1), 1024);
    // two frames back to back; the first poll yields the first frame
    let wire = vec![1u8, 42, 2, 7, 8];
    let first = reader.read_transport_packet(&wire).unwrap().unwrap();
    assert_eq!(first.data, vec![42]);
    let second = reader.read_transport_packet(&Vec::new()).unwrap().unwrap();
    assert_eq!(second.data, vec![7, 8]);
}

#[test]
fn buffered_reader_rejects_overflow() {
    let mut reader = DraxTransportPipeline::new(FrameDecoder::new(-1), 4);
    let e = reader.read_transport_packet(&vec![0x80u8; 5]).unwrap_err();
    assert!(matches!(e.error_type, ErrorType::BufferFull));
}

#[test]
fn test_async_read_persistence() {
    let key = vec![0x42u8; 16];

    let mut writer = EncryptedWriter::new(Vec::new(), &key);
    writer.write(&vec![1, 2, 3, 4, 5]);
    let encrypted = writer.into_inner();
    assert_ne!(encrypted, vec![1, 2, 3, 4, 5]);

    let mut reader = DecryptRead::new(ByteReader::new(encrypted), &key);
    let back = reader.read_exact(5).unwrap();
    assert_eq!(back, vec![1, 2, 3, 4, 5]);
}

#[test]
fn noop_cipher_passes_through() {
    let mut writer = EncryptedWriter::noop(Vec::new());
    writer.write(&vec![1, 2, 3]);
    assert_eq!(writer.into_inner(), vec![1, 2, 3]);

    let mut reader = DecryptRead::noop(ByteReader::new(vec![4, 5, 6]));
    assert_eq!(reader.read_exact(2).unwrap(), vec![4, 5]);
}

#[test]
fn whole_pipeline_outbound_and_back() {
    // outbound: payload -> compress -> size prefix; inbound: assemble -> decompress
    let outbound = link(FrameEncoder::new(4), FrameSizeAppender);
    let payload: Vec<u8> = std::iter::repeat(3u8).take(64).collect();
    let wire = outbound.process(PacketFrame { data: payload.clone() }).unwrap();

    let mut inbound = DraxTransportPipeline::new(FrameDecoder::new(4), 4096);
    let got = inbound.read_transport_packet(&wire).unwrap().unwrap();
    assert_eq!(got.data, payload);
}

#[test]
fn chunked_cipher_stream_round_trips() {
    let key = vec![0x37u8; 16];

    let mut writer = EncryptedWriter::new(Vec::new(), &key);
    writer.write(&vec![1, 2, 3]);
    writer.write(&vec![4, 5]);
    let encrypted = writer.into_inner();
    assert_eq!(encrypted.len(), 5);
    assert_ne!(encrypted, vec![1, 2, 3, 4, 5]);

    // decrypting with different chunk boundaries still inverts the stream
    let mut reader = DecryptRead::new(ByteReader::new(encrypted), &key);
    let first = reader.read_exact(2).unwrap();
    let second = reader.read_exact(3).unwrap();
    assert_eq!(first, vec![1, 2]);
    assert_eq!(second, vec![3, 4, 5]);
}
