use indexer::codec::{BlockDecoder, BlockEncoder, COMPRESSED_BLOCK_MAX_SIZE, NUM_DOCS_PER_BLOCK};

fn sorted_block() -> Vec<u32> {
    (0..NUM_DOCS_PER_BLOCK as u32).map(|i| 10 + 3 * i).collect()
}

#[test]
fn round_trip_sorted() {
    let vals = sorted_block();
    let offset = 10u32;
    let mut encoder = BlockEncoder::new();
    let len = encoder.compress_block_sorted(&vals, offset);
    let mut decoder = BlockDecoder::new();
    let consumed = decoder.uncompress_block_sorted(&encoder.output[..len], offset);
    assert_eq!(consumed, len);
    assert_eq!(decoder.output_array(), &vals[..]);
}

#[test]
fn round_trip_sorted_constant_block() {
    let offset = 77u32;
    let vals = vec![offset; NUM_DOCS_PER_BLOCK];
    let mut encoder = BlockEncoder::new();
    let len = encoder.compress_block_sorted(&vals, offset);
    // every delta is zero: only the width byte is needed
    assert_eq!(len, 1);
    let mut decoder = BlockDecoder::new();
    let consumed = decoder.uncompress_block_sorted(&encoder.output[..len], offset);
    assert_eq!(consumed, 1);
    assert_eq!(decoder.output_array(), &vals[..]);
}

#[test]
fn round_trip_unsorted() {
    let vals: Vec<u32> = (0..NUM_DOCS_PER_BLOCK as u32)
        .map(|i| i.wrapping_mul(2_654_435_761) % 1_000_003)
        .collect();
    let mut encoder = BlockEncoder::new();
    let len = encoder.compress_block_unsorted(&vals);
    let mut decoder = BlockDecoder::new();
    let consumed = decoder.uncompress_block_unsorted(&encoder.output[..len]);
    assert_eq!(consumed, len);
    assert_eq!(decoder.output_array(), &vals[..]);
}

#[test]
fn round_trip_unsorted_extremes() {
    let mut vals = vec![0u32; NUM_DOCS_PER_BLOCK];
    vals[0] = u32::MAX;
    vals[64] = 1;
    vals[127] = u32::MAX - 1;
    let mut encoder = BlockEncoder::new();
    let len = encoder.compress_block_unsorted(&vals);
    // one value needs the full four bytes, so every value is stored on four
    assert_eq!(len, 1 + 4 * NUM_DOCS_PER_BLOCK);
    let mut decoder = BlockDecoder::new();
    let consumed = decoder.uncompress_block_unsorted(&encoder.output[..len]);
    assert_eq!(consumed, len);
    assert_eq!(decoder.output_array(), &vals[..]);
}

#[test]
fn compactness_bound() {
    let mut encoder = BlockEncoder::new();
    let vals = vec![u32::MAX; NUM_DOCS_PER_BLOCK];
    let len = encoder.compress_block_unsorted(&vals);
    assert!(len <= COMPRESSED_BLOCK_MAX_SIZE);
    assert_eq!(len, COMPRESSED_BLOCK_MAX_SIZE);
    let sorted = sorted_block();
    let len_sorted = encoder.compress_block_sorted(&sorted, 0);
    assert!(len_sorted <= COMPRESSED_BLOCK_MAX_SIZE);
}

#[test]
fn exact_width_small_deltas() {
    // every delta is 3 except the first (0), so one byte per value is enough
    let vals = sorted_block();
    let mut encoder = BlockEncoder::new();
    let len = encoder.compress_block_sorted(&vals, 10);
    assert_eq!(len, 1 + NUM_DOCS_PER_BLOCK);
    assert_eq!(encoder.output[0], 1);
    assert_eq!(encoder.output_len, len);
}

#[test]
fn stream_framing_sorted() {
    let block1 = sorted_block();
    let block2: Vec<u32> = (0..NUM_DOCS_PER_BLOCK as u32).map(|i| 1000 + 17 * i).collect();
    let off1 = 5u32;
    let off2 = 900u32;
    let mut encoder = BlockEncoder::new();
    let mut stream: Vec<u8> = Vec::new();
    let len1 = encoder.compress_block_sorted(&block1, off1);
    stream.extend_from_slice(&encoder.output[..len1]);
    let len2 = encoder.compress_block_sorted(&block2, off2);
    stream.extend_from_slice(&encoder.output[..len2]);

    let mut decoder = BlockDecoder::new();
    let consumed1 = decoder.uncompress_block_sorted(&stream, off1);
    assert_eq!(consumed1, len1);
    assert_eq!(decoder.output_array(), &block1[..]);
    let consumed2 = decoder.uncompress_block_sorted(&stream[consumed1..], off2);
    assert_eq!(consumed2, len2);
    assert_eq!(decoder.output_array(), &block2[..]);
    assert_eq!(consumed1 + consumed2, stream.len());
}

#[test]
fn stream_framing_unsorted() {
    let block1: Vec<u32> = (0..NUM_DOCS_PER_BLOCK as u32).map(|i| 65_000 + i).collect();
    let block2: Vec<u32> = (0..NUM_DOCS_PER_BLOCK as u32).map(|i| i % 7).collect();
    let mut encoder = BlockEncoder::new();
    let mut stream: Vec<u8> = Vec::new();
    let len1 = encoder.compress_block_unsorted(&block1);
    stream.extend_from_slice(&encoder.output[..len1]);
    let len2 = encoder.compress_block_unsorted(&block2);
    stream.extend_from_slice(&encoder.output[..len2]);

    let mut decoder = BlockDecoder::new();
    let consumed1 = decoder.uncompress_block_unsorted(&stream);
    assert_eq!(consumed1, len1);
    assert_eq!(decoder.output_array(), &block1[..]);
    let consumed2 = decoder.uncompress_block_unsorted(&stream[consumed1..]);
    assert_eq!(consumed2, len2);
    assert_eq!(decoder.output_array(), &block2[..]);
}

#[test]
fn decoder_with_val_and_output() {
    let decoder = BlockDecoder::with_val(42);
    assert_eq!(decoder.output_len, 0);
    assert_eq!(decoder.output(0), 42);
    assert_eq!(decoder.output(COMPRESSED_BLOCK_MAX_SIZE - 1), 42);
    assert_eq!(decoder.output_array().len(), 0);

    let vals = sorted_block();
    let mut encoder = BlockEncoder::new();
    let len = encoder.compress_block_sorted(&vals, 10);
    let mut decoder = BlockDecoder::with_val(42);
    decoder.uncompress_block_sorted(&encoder.output[..len], 10);
    assert_eq!(decoder.output_len, NUM_DOCS_PER_BLOCK);
    assert_eq!(decoder.output(0), vals[0]);
    assert_eq!(decoder.output(127), vals[127]);
    // the buffer beyond the decoded block keeps its fill value
    assert_eq!(decoder.output(NUM_DOCS_PER_BLOCK), 42);
    assert_eq!(decoder.output(COMPRESSED_BLOCK_MAX_SIZE - 1), 42);
}

#[test]
fn encoder_starts_empty() {
    let encoder = BlockEncoder::new();
    assert_eq!(encoder.output_len, 0);
    assert_eq!(encoder.output.len(), COMPRESSED_BLOCK_MAX_SIZE);
    assert!(encoder.output.iter().all(|b| *b == 0));
}
