//! LZF compression.

use valkey_rdb_tools::lzf::decompress;

#[test]
fn literal_only() {
    // "abc": 3 literal bytes, ctrl = 2 (len-1)
    let compressed = [2u8, b'a', b'b', b'c'];
    let result = decompress(&compressed, 3).unwrap();
    assert_eq!(result, b"abc");
}

#[test]
fn with_backref() {
    // "aaaa": literal "a" (ctrl=0, 'a'), then backref offset=1, len=3
    // backref: len=3 means stored as 1 (len-2), offset=0 (1-based → stored as 0)
    // ctrl byte: (1 << 5) | 0 = 0x20, offset low byte = 0x00
    let compressed = [0u8, b'a', 0x20, 0x00];
    let result = decompress(&compressed, 4).unwrap();
    assert_eq!(result, b"aaaa");
}

#[test]
fn output_overflow_literal() {
    // "abc" but expected is 2
    let compressed = [2u8, b'a', b'b', b'c'];
    assert!(decompress(&compressed, 2).is_err());
}

#[test]
fn output_overflow_backref() {
    // "a" literal + backref that would produce 4 total, but expected is 2
    let compressed = [0u8, b'a', 0x20, 0x00];
    assert!(decompress(&compressed, 2).is_err());
}

#[test]
fn ratio_cap() {
    // 5-byte compressed claiming 512MB output
    let compressed = [0u8; 5];
    assert!(decompress(&compressed, 512 * 1024 * 1024).is_err());
}

#[test]
fn backref_non_overlapping_fast_path() {
    // Literal "abcd" (ctrl=3, 4 bytes) followed by backref offset=4, len=3
    // → output becomes "abcdabc".
    let compressed = [3u8, b'a', b'b', b'c', b'd', 0x20, 3];
    let result = decompress(&compressed, 7).unwrap();
    assert_eq!(result, b"abcdabc");
}

#[test]
fn backref_overlapping_slow_path() {
    // Literal "a" + backref offset=1 len=5 → "aaaaaa" (self-referential
    // run repeating the single byte). Exercises the overlapping branch
    // where each copied byte is a byte just pushed.
    let compressed = [0u8, b'a', (3 << 5), 0x00];
    let result = decompress(&compressed, 6).unwrap();
    assert_eq!(result, b"aaaaaa");
}

#[test]
fn backref_offset_equals_len_uses_fast_path() {
    // offset == len is the exact boundary between fast and slow paths
    // (the fast `extend_from_within` branch requires `offset >= len`).
    // LZF short-match minimum length is 3, so pick offset = len = 3.
    // Literal "abc" (ctrl=2, 3 bytes) then backref ctrl=0x20, off_lo=2
    // — stored offset 2 decodes to actual offset 3, and `ctrl >> 5 = 1`
    // decodes to length 3. Output: "abcabc".
    let compressed = [2u8, b'a', b'b', b'c', 0x20, 2];
    let result = decompress(&compressed, 6).unwrap();
    assert_eq!(result, b"abcabc");
}
