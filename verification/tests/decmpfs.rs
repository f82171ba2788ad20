use apfsrelic::decmpfs::{
    accept_adler, accept_exact, decode_reserved, frame_lzvn, parse_header, write_embedded, Codec,
    Header, NoCodec, Storage,
    COMPRESSION_LZFSE, COMPRESSION_ZLIB, DECMPFS_MAGIC, LZFSE_END_MAGIC, LZFSE_LZVN_BLOCK_MAGIC,
    TYPE_LZVN_ATTR, TYPE_LZVN_RSRC, TYPE_UNCOMPRESSED_ATTR, TYPE_ZLIB_ATTR, TYPE_ZLIB_RSRC,
};
use apfsrelic::error::ErrorKind;

fn xattr(compression_type: u32, size: u64, payload: &[u8]) -> Vec<u8> {
    let mut data = Vec::new();
    data.extend_from_slice(&DECMPFS_MAGIC.to_le_bytes());
    data.extend_from_slice(&compression_type.to_le_bytes());
    data.extend_from_slice(&size.to_le_bytes());
    data.extend_from_slice(payload);
    data
}

/// A decoder for DEFLATE blocks with fixed codes and literals only, and for the
/// LZVN operations of the streams below.
struct TestCodec;

fn inflate(source: &[u8]) -> Vec<u8> {
    let mut at = 0usize;
    let mut bit = || {
        let value = (source[at / 8] >> (at % 8)) & 1;
        at += 1;
        value as u32
    };
    assert_eq!(bit(), 1, "one final block");
    assert_eq!(bit() | bit() << 1, 1, "fixed codes");
    let mut out = Vec::new();
    loop {
        let mut code = 0u32;
        for _ in 0..7 {
            code = code << 1 | bit();
        }
        if code <= 0x17 {
            assert_eq!(code, 0, "no matches in this stream");
            return out;
        }
        code = code << 1 | bit();
        if (0x30..=0xbf).contains(&code) {
            out.push((code - 0x30) as u8);
        } else {
            code = code << 1 | bit();
            assert!((0x190..=0x1ff).contains(&code), "a literal");
            out.push((code - 0x190 + 144) as u8);
        }
    }
}

fn lzfse(source: &[u8]) -> Vec<u8> {
    let word = |at: usize| u32::from_le_bytes(source[at..at + 4].try_into().unwrap());
    assert_eq!(word(0), LZFSE_LZVN_BLOCK_MAGIC);
    let raw = word(4) as usize;
    let payload = &source[12..12 + word(8) as usize];
    assert_eq!(word(12 + payload.len()), LZFSE_END_MAGIC);
    let mut out = Vec::new();
    let mut at = 0usize;
    let mut distance = 0usize;
    loop {
        let op = payload[at];
        let (literals, matched);
        if op == 0x06 {
            break;
        } else if op == 0xf0 {
            literals = 0;
            matched = payload[at + 1] as usize + 16;
            at += 2;
        } else if op & 0xf0 == 0xe0 {
            literals = (op & 0x0f) as usize;
            matched = 0;
            at += 1;
        } else {
            literals = (op >> 6) as usize;
            matched = ((op >> 3) & 7) as usize + 3;
            distance = ((op & 7) as usize) << 8 | payload[at + 1] as usize;
            at += 2;
        }
        out.extend_from_slice(&payload[at..at + literals]);
        at += literals;
        for _ in 0..matched {
            out.push(out[out.len() - distance]);
        }
    }
    assert_eq!(out.len(), raw);
    out
}

impl Codec for TestCodec {
    fn is_available(&self) -> bool {
        true
    }

    fn decode(&self, source: &Vec<u8>, capacity: usize, algorithm: u32) -> Vec<u8> {
        let mut out = match algorithm {
            COMPRESSION_ZLIB => inflate(source),
            COMPRESSION_LZFSE => lzfse(source),
            _ => Vec::new(),
        };
        out.truncate(capacity);
        out
    }
}

/// A decoder that gives the same bytes whatever it is asked.
struct FixedCodec(Vec<u8>);

impl Codec for FixedCodec {
    fn is_available(&self) -> bool {
        true
    }

    fn decode(&self, _source: &Vec<u8>, capacity: usize, _algorithm: u32) -> Vec<u8> {
        let mut out = self.0.clone();
        out.truncate(capacity);
        out
    }
}

const ZLIB_HELLO: [u8; 13] = [
    0x78, 0x9c, 0xcb, 0x48, 0xcd, 0xc9, 0xc9, 0x07, 0x00, 0x06, 0x2c, 0x02, 0x15,
];

#[test]
fn type1_is_copied_exactly() {
    let data = xattr(TYPE_UNCOMPRESSED_ATTR, 5, b"hello");
    let mut out = Vec::new();
    assert_eq!(write_embedded(&data, &NoCodec, &mut out).unwrap(), 5);
    assert_eq!(out, b"hello");
}

#[test]
fn raw_markers_are_removed_and_length_checked() {
    for (compression_type, marker) in [(TYPE_ZLIB_ATTR, 0xff), (TYPE_LZVN_ATTR, 0x06)] {
        let data = xattr(compression_type, 5, &[marker, b'h', b'e', b'l', b'l', b'o']);
        let mut out = Vec::new();
        write_embedded(&data, &NoCodec, &mut out).unwrap();
        assert_eq!(out, b"hello");
    }

    let data = xattr(TYPE_LZVN_ATTR, 6, b"\x06hello");
    let error = write_embedded(&data, &NoCodec, &mut Vec::new()).unwrap_err();
    assert_eq!(error.kind(), ErrorKind::Corrupt);
}

#[test]
fn rejects_short_bad_magic_and_wrong_type1_length() {
    assert_eq!(
        parse_header(&[0u8; 15]).unwrap_err().kind(),
        ErrorKind::Corrupt
    );
    let mut bad_magic = xattr(TYPE_UNCOMPRESSED_ATTR, 0, b"");
    bad_magic[0] ^= 0xff;
    assert_eq!(
        parse_header(&bad_magic).unwrap_err().kind(),
        ErrorKind::Corrupt
    );
    let wrong_length = xattr(TYPE_UNCOMPRESSED_ATTR, 6, b"hello");
    assert_eq!(
        write_embedded(&wrong_length, &NoCodec, &mut Vec::new())
            .unwrap_err()
            .kind(),
        ErrorKind::Corrupt
    );
}

#[test]
fn decodes_real_zlib_and_bare_lzvn_streams() {
    // A zlib stream for "hello", with its Adler-32 trailer.
    let zlib = xattr(TYPE_ZLIB_ATTR, 5, &ZLIB_HELLO);
    let mut zlib_out = Vec::new();
    write_embedded(&zlib, &TestCodec, &mut zlib_out).unwrap();
    assert_eq!(zlib_out, b"hello");

    // A bare LZVN payload, without the `bvxn` header and the `bvx$` word.
    let lzvn_payload = [
        0x68, 0x01, 0x41, 0xf0, 0xe5, 0xe1, 0x41, 0x06, 0x00, 0x00, 0x00, 0x00, 0x00, 0x00, 0x00,
    ];
    let lzvn = xattr(TYPE_LZVN_ATTR, 255, &lzvn_payload);
    let mut lzvn_out = Vec::new();
    write_embedded(&lzvn, &TestCodec, &mut lzvn_out).unwrap();
    assert_eq!(lzvn_out, vec![b'A'; 255]);
}

#[test]
fn header_errors_name_what_is_wrong() {
    let short = parse_header(&[0u8; 15]).unwrap_err();
    assert_eq!(short.text(), "decmpfs xattr is too short (15 < 16)");
    let large = parse_header(&vec![0u8; 3803]).unwrap_err();
    assert_eq!(large.text(), "decmpfs xattr is too large (3803 > 3802)");
    let magic = parse_header(&[0u8; 16]).unwrap_err();
    assert_eq!(
        magic.text(),
        "invalid decmpfs magic 0x00000000 (expected 0x636d7066)"
    );
    let header = parse_header(&xattr(TYPE_LZVN_RSRC, 0x1_0000_0002, b"")).unwrap();
    assert_eq!(
        header,
        Header {
            compression_type: 8,
            uncompressed_size: 0x1_0000_0002
        }
    );
}

#[test]
fn types_name_their_storage_and_codec() {
    let of = |compression_type: u32| Header {
        compression_type,
        uncompressed_size: 0,
    };
    assert_eq!(of(TYPE_UNCOMPRESSED_ATTR).storage(), Storage::Embedded);
    assert_eq!(of(TYPE_ZLIB_RSRC).storage(), Storage::ResourceFork);
    assert_eq!(of(99).storage(), Storage::Kernel);
    assert_eq!(of(TYPE_ZLIB_ATTR).codec(), "zlib");
    assert_eq!(of(TYPE_LZVN_RSRC).codec(), "lzvn");
    assert_eq!(of(TYPE_UNCOMPRESSED_ATTR).codec(), "none");
    assert_eq!(of(99).codec(), "kernel");
    assert_eq!(Storage::ResourceFork.as_str(), "resource-fork");
    assert_eq!(Storage::Embedded.as_str(), "embedded");
    assert_eq!(Storage::Kernel.as_str(), "kernel");
}

#[test]
fn a_resource_fork_type_is_not_embedded() {
    let data = xattr(TYPE_ZLIB_RSRC, 5, b"hello");
    let error = write_embedded(&data, &TestCodec, &mut Vec::new()).unwrap_err();
    assert_eq!(error.kind(), ErrorKind::UnsupportedFeature);
    assert_eq!(
        error.text(),
        "decmpfs type 4 is not an embedded compression type"
    );
}

#[test]
fn a_platform_without_decoder_says_so() {
    let zlib = xattr(TYPE_ZLIB_ATTR, 5, &ZLIB_HELLO);
    let mut out = vec![1u8];
    let error = write_embedded(&zlib, &NoCodec, &mut out).unwrap_err();
    assert_eq!(error.kind(), ErrorKind::UnsupportedFeature);
    assert_eq!(
        error.text(),
        "decmpfs algorithm 0x205 requires the macOS Compression framework"
    );
    assert_eq!(out, vec![1u8]);
}

#[test]
fn zlib_wrappers_are_checked() {
    let short = xattr(TYPE_ZLIB_ATTR, 5, &[0x78, 0x9c, 0, 0, 0]);
    assert_eq!(
        write_embedded(&short, &TestCodec, &mut Vec::new())
            .unwrap_err()
            .text(),
        "decmpfs zlib payload is shorter than its wrapper"
    );
    let bad = xattr(TYPE_ZLIB_ATTR, 5, &[0x78, 0x9d, 0, 0, 0, 0]);
    assert_eq!(
        write_embedded(&bad, &TestCodec, &mut Vec::new())
            .unwrap_err()
            .text(),
        "invalid decmpfs zlib header"
    );
    let dictionary = xattr(TYPE_ZLIB_ATTR, 5, &[0x78, 0xbb, 0, 0, 0, 0]);
    assert_eq!(
        write_embedded(&dictionary, &TestCodec, &mut Vec::new())
            .unwrap_err()
            .kind(),
        ErrorKind::UnsupportedFeature
    );
}

#[test]
fn a_wrong_checksum_or_length_is_refused_and_nothing_is_written() {
    let mut payload = ZLIB_HELLO;
    payload[12] ^= 1;
    let data = xattr(TYPE_ZLIB_ATTR, 5, &payload);
    let mut out = Vec::new();
    let error = write_embedded(&data, &TestCodec, &mut out).unwrap_err();
    assert_eq!(
        error.text(),
        "decmpfs zlib Adler-32 mismatch (0x062c0215 != 0x062c0214)"
    );
    assert!(out.is_empty());

    let longer = xattr(TYPE_ZLIB_ATTR, 4, &ZLIB_HELLO);
    let error = write_embedded(&longer, &TestCodec, &mut out).unwrap_err();
    assert_eq!(
        error.text(),
        "decmpfs stream decoded to 5 bytes, expected 4"
    );
    let shorter = xattr(TYPE_LZVN_ATTR, 3, &[0xe1]);
    let error = write_embedded(&shorter, &FixedCodec(vec![7]), &mut out).unwrap_err();
    assert_eq!(
        error.text(),
        "decmpfs stream decoded to 1 bytes, expected 3"
    );
    assert!(out.is_empty());
}

#[test]
fn an_lzvn_size_beyond_its_block_format_is_refused() {
    let data = xattr(TYPE_LZVN_ATTR, 0x1_0000_0000, &[0xe1]);
    let error = write_embedded(&data, &FixedCodec(Vec::new()), &mut Vec::new()).unwrap_err();
    assert_eq!(
        error.text(),
        "decmpfs LZVN uncompressed size exceeds 32-bit block format"
    );
}

#[test]
fn what_a_decoder_gave_is_held_against_size_and_checksum() {
    assert_eq!(accept_exact(vec![1, 2], 2).unwrap(), vec![1, 2]);
    assert!(accept_exact(vec![1, 2], 3).is_err());
    assert_eq!(accept_adler(b"hello".to_vec(), 0x062c_0215).unwrap(), b"hello");
    assert_eq!(accept_adler(Vec::new(), 1).unwrap(), Vec::<u8>::new());
    // Long enough for both sums to pass the modulus many times.
    assert_eq!(accept_adler(vec![0xff; 100_000], 0x149a_302c).unwrap().len(), 100_000);
}

#[test]
fn a_decoder_with_room_must_fill_it_exactly() {
    let codec = FixedCodec(b"four".to_vec());
    let decode = |expected: u64| decode_reserved(&codec, &vec![0], expected, COMPRESSION_ZLIB);
    assert_eq!(decode(4).unwrap(), b"four");
    assert_eq!(decode(3).unwrap_err().kind(), ErrorKind::Corrupt);
    assert_eq!(decode(5).unwrap_err().kind(), ErrorKind::Corrupt);
}

#[test]
fn a_bare_payload_is_framed_as_one_block() {
    let mut stream = vec![9];
    frame_lzvn(&vec![1, 2], 7, &mut stream);
    let mut expected = vec![9];
    expected.extend_from_slice(&LZFSE_LZVN_BLOCK_MAGIC.to_le_bytes());
    expected.extend_from_slice(&[7, 0, 0, 0, 2, 0, 0, 0, 1, 2]);
    expected.extend_from_slice(&LZFSE_END_MAGIC.to_le_bytes());
    assert_eq!(stream, expected);
}
