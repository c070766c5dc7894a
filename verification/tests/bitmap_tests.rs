use tick_engine::bitmap::{
    decode_all, decode_default_words, decode_extension_chunks, encode, read_default_bitmap,
    read_extension_bitmap, BitmapError,
};
use tick_engine::states::TickArrayBitmapExtension;

fn empty_extension() -> TickArrayBitmapExtension {
    TickArrayBitmapExtension {
        positive_tick_array_bitmap: [[0u64; 8]; 14],
        negative_tick_array_bitmap: [[0u64; 8]; 14],
    }
}

#[test]
fn default_bitmap_center_bit_is_array_zero() {
    let mut words = [0u64; 16];
    words[8] = 1; // global bit 512
    assert_eq!(read_default_bitmap(&words, 10), vec![0]);
}

#[test]
fn default_bitmap_lowest_bit_is_most_negative_offset() {
    let mut words = [0u64; 16];
    words[0] = 1; // global bit 0, offset -512
    assert_eq!(read_default_bitmap(&words, 10), vec![-512 * 600]);
}

#[test]
fn default_bitmap_highest_bit_is_most_positive_offset() {
    let mut words = [0u64; 16];
    words[15] = 1u64 << 63; // global bit 1023, offset 511
    assert_eq!(read_default_bitmap(&words, 10), vec![511 * 600]);
}

#[test]
fn extension_positive_side_counts_upward() {
    let mut ext = empty_extension();
    ext.positive_tick_array_bitmap[0][0] = 1; // chunk 0, bit 0: offset 512
    ext.positive_tick_array_bitmap[1][0] = 1; // chunk 1, bit 0: offset 1024
    let decoded = read_extension_bitmap(&ext, 10);
    assert_eq!(decoded, vec![512 * 600, 1024 * 600]);
}

#[test]
fn extension_negative_side_is_bit_reversed() {
    let mut ext = empty_extension();
    // chunk 0, bit 511 (word 7, bit 63) is the offset nearest zero: -513
    ext.negative_tick_array_bitmap[0][7] = 1u64 << 63;
    // chunk 0, bit 0 is the farthest offset of the first chunk: -1024
    ext.negative_tick_array_bitmap[0][0] = 1;
    // chunk 1, bit 511 continues just beyond chunk 0: -1025
    ext.negative_tick_array_bitmap[1][7] = 1u64 << 63;
    let decoded = read_extension_bitmap(&ext, 10);
    assert_eq!(decoded, vec![-1024 * 600, -513 * 600, -1025 * 600]);
}

#[test]
fn extension_round_trip_reproduces_bit_pattern() {
    let mut ext = empty_extension();
    ext.positive_tick_array_bitmap[0][0] = 1 | (1 << 5);
    ext.positive_tick_array_bitmap[3][2] = 1 << 7;
    ext.negative_tick_array_bitmap[0][7] = 1u64 << 63;
    ext.negative_tick_array_bitmap[5][1] = 1 << 1;
    let decoded = read_extension_bitmap(&ext, 10);
    let (default_words, encoded_ext) = encode(&decoded, 10);
    assert_eq!(default_words, [0u64; 16]);
    assert_eq!(encoded_ext, ext);
}

#[test]
fn default_round_trip_reproduces_words() {
    let mut words = [0u64; 16];
    words[0] = 0b1010;
    words[8] = 1;
    words[15] = (1u64 << 63) | 7;
    let decoded = read_default_bitmap(&words, 30);
    let (encoded_words, encoded_ext) = encode(&decoded, 30);
    assert_eq!(encoded_words, words);
    assert_eq!(encoded_ext, empty_extension());
}

#[test]
fn decode_default_words_rejects_wrong_count() {
    let short = vec![0u64; 15];
    assert_eq!(decode_default_words(&short, 10), Err(BitmapError::InvalidBitmapShape));
    let mut right = vec![0u64; 16];
    right[8] = 1;
    assert_eq!(decode_default_words(&right, 10), Ok(vec![0]));
}

#[test]
fn decode_extension_chunks_rejects_wrong_shape() {
    let good: Vec<Vec<u64>> = vec![vec![0u64; 8]; 14];
    let short_side: Vec<Vec<u64>> = vec![vec![0u64; 8]; 13];
    let short_chunk: Vec<Vec<u64>> = {
        let mut c = vec![vec![0u64; 8]; 14];
        c[3] = vec![0u64; 7];
        c
    };
    assert_eq!(
        decode_extension_chunks(&short_side, &good, 10),
        Err(BitmapError::InvalidBitmapShape)
    );
    assert_eq!(
        decode_extension_chunks(&good, &short_chunk, 10),
        Err(BitmapError::InvalidBitmapShape)
    );
    let mut pos = vec![vec![0u64; 8]; 14];
    pos[0][0] = 1; // offset 512
    assert_eq!(decode_extension_chunks(&pos, &good, 10), Ok(vec![512 * 600]));
}

#[test]
fn decode_all_sorts_and_merges_both_tiers() {
    let mut words = [0u64; 16];
    words[8] = 1; // array 0
    words[0] = 1; // array -512
    let mut ext = empty_extension();
    ext.positive_tick_array_bitmap[0][0] = 1; // offset 512
    ext.negative_tick_array_bitmap[0][7] = 1u64 << 63; // offset -513
    let all = decode_all(&words, &ext, 10);
    assert_eq!(all, vec![-513 * 600, -512 * 600, 0, 512 * 600]);
}
