//! Transparent file compression: its header and its embedded payloads.
//!
//! The extended attribute starts with a 16-byte header. Types 1, 3 and 7 keep
//! their payload behind it. Types 4 and 8 keep a chunked payload in the file's
//! resource fork; callers can preserve those bytes and let the kernel decode them.
use crate::error::{failure, viewed, Error, ErrorKind, ErrorView};
use crate::raw::{le_u32, le_u64, number_at, u32_at, u64_at};
use crate::text::{dec, hex_padded, hex_padded_text, hex_prefixed, push_dec, push_dec_len, push_hex};
use vstd::prelude::*;

verus! {

pub const DECMPFS_XATTR_NAME: &'static str = "com.apple.decmpfs";

pub const RESOURCE_FORK_XATTR_NAME: &'static str = "com.apple.ResourceFork";

pub const DECMPFS_MAGIC: u32 = 0x636d_7066;

pub const DECMPFS_HEADER_LEN: usize = 16;

pub const MAX_DECMPFS_XATTR_SIZE: usize = 3802;

pub const UF_COMPRESSED: u32 = 0x0000_0020;

pub const TYPE_UNCOMPRESSED_ATTR: u32 = 1;

pub const TYPE_ZLIB_ATTR: u32 = 3;

pub const TYPE_ZLIB_RSRC: u32 = 4;

pub const TYPE_LZVN_ATTR: u32 = 7;

pub const TYPE_LZVN_RSRC: u32 = 8;

/// The number by which a decoder knows raw DEFLATE streams.
pub const COMPRESSION_ZLIB: u32 = 0x205;

/// The number by which a decoder knows LZFSE streams.
pub const COMPRESSION_LZFSE: u32 = 0x801;

/// The word that begins an LZVN block of an LZFSE stream.
pub const LZFSE_LZVN_BLOCK_MAGIC: u32 = 0x6e78_7662;

/// The word that ends an LZFSE stream.
pub const LZFSE_END_MAGIC: u32 = 0x2478_7662;

// ---------------------------------------------------------------------------
// Header
// ---------------------------------------------------------------------------

/// Where the compressed bytes are.
#[derive(Debug, Clone, Copy, PartialEq, Eq, Structural)]
pub enum Storage {
    Embedded,
    ResourceFork,
    Kernel,
}

impl Storage {
    /// The name of a place.
    pub open spec fn name(self) -> Seq<char> {
        match self {
            Storage::Embedded => "embedded"@,
            Storage::ResourceFork => "resource-fork"@,
            Storage::Kernel => "kernel"@,
        }
    }

    pub fn as_str(self) -> (r: &'static str)
        ensures
            r@ == self.name(),
    {
        match self {
            Storage::Embedded => "embedded",
            Storage::ResourceFork => "resource-fork",
            Storage::Kernel => "kernel",
        }
    }
}

/// The fixed part of the attribute.
#[derive(Debug, Clone, Copy, PartialEq, Eq, Structural)]
pub struct Header {
    pub compression_type: u32,
    pub uncompressed_size: u64,
}

impl View for Header {
    type V = Header;

    open spec fn view(&self) -> Header {
        *self
    }
}

impl Header {
    pub open spec fn spec_storage(self) -> Storage {
        if self.compression_type == TYPE_UNCOMPRESSED_ATTR || self.compression_type
            == TYPE_ZLIB_ATTR || self.compression_type == TYPE_LZVN_ATTR {
            Storage::Embedded
        } else if self.compression_type == TYPE_ZLIB_RSRC || self.compression_type
            == TYPE_LZVN_RSRC {
            Storage::ResourceFork
        } else {
            Storage::Kernel
        }
    }

    pub open spec fn spec_codec(self) -> Seq<char> {
        if self.compression_type == TYPE_UNCOMPRESSED_ATTR {
            "none"@
        } else if self.compression_type == TYPE_ZLIB_ATTR || self.compression_type
            == TYPE_ZLIB_RSRC {
            "zlib"@
        } else if self.compression_type == TYPE_LZVN_ATTR || self.compression_type
            == TYPE_LZVN_RSRC {
            "lzvn"@
        } else {
            "kernel"@
        }
    }

    /// Where the compressed bytes are.
    pub fn storage(self) -> (r: Storage)
        ensures
            r == self.spec_storage(),
    {
        if self.compression_type == TYPE_UNCOMPRESSED_ATTR || self.compression_type
            == TYPE_ZLIB_ATTR || self.compression_type == TYPE_LZVN_ATTR {
            Storage::Embedded
        } else if self.compression_type == TYPE_ZLIB_RSRC || self.compression_type
            == TYPE_LZVN_RSRC {
            Storage::ResourceFork
        } else {
            Storage::Kernel
        }
    }

    /// How the bytes are compressed.
    pub fn codec(self) -> (r: &'static str)
        ensures
            r@ == self.spec_codec(),
    {
        if self.compression_type == TYPE_UNCOMPRESSED_ATTR {
            "none"
        } else if self.compression_type == TYPE_ZLIB_ATTR || self.compression_type
            == TYPE_ZLIB_RSRC {
            "zlib"
        } else if self.compression_type == TYPE_LZVN_ATTR || self.compression_type
            == TYPE_LZVN_RSRC {
            "lzvn"
        } else {
            "kernel"
        }
    }
}

/// The error of kind `Corrupt` with message `message`.
pub open spec fn corrupt(message: Seq<char>) -> ErrorView {
    failure(ErrorKind::Corrupt, message)
}

/// The header at the start of `data`, or why there is none.
pub open spec fn header_of(data: Seq<u8>) -> Result<Header, ErrorView> {
    if data.len() < DECMPFS_HEADER_LEN {
        Err(
            corrupt(
                "decmpfs xattr is too short ("@ + dec(data.len()) + " < "@ + dec(
                    DECMPFS_HEADER_LEN as nat,
                ) + ")"@,
            ),
        )
    } else if data.len() > MAX_DECMPFS_XATTR_SIZE {
        Err(
            corrupt(
                "decmpfs xattr is too large ("@ + dec(data.len()) + " > "@ + dec(
                    MAX_DECMPFS_XATTR_SIZE as nat,
                ) + ")"@,
            ),
        )
    } else if le_u32(data, 0) != DECMPFS_MAGIC {
        Err(
            corrupt(
                "invalid decmpfs magic 0x"@ + hex_padded(le_u32(data, 0) as nat, 8)
                    + " (expected 0x"@ + hex_padded(DECMPFS_MAGIC as nat, 8) + ")"@,
            ),
        )
    } else {
        Ok(
            Header {
                compression_type: le_u32(data, 4) as u32,
                uncompressed_size: le_u64(data, 8) as u64,
            },
        )
    }
}

/// Reads and checks the header of the raw attribute.
pub fn parse_header(data: &[u8]) -> (r: Result<Header, Error>)
    ensures
        viewed(r) == header_of(data@),
{
    if data.len() < DECMPFS_HEADER_LEN {
        let mut message = "decmpfs xattr is too short (".to_owned();
        push_dec_len(&mut message, data.len());
        message.append(" < ");
        push_dec_len(&mut message, DECMPFS_HEADER_LEN);
        message.append(")");
        return Err(Error::new(ErrorKind::Corrupt, message));
    }
    if data.len() > MAX_DECMPFS_XATTR_SIZE {
        let mut message = "decmpfs xattr is too large (".to_owned();
        push_dec_len(&mut message, data.len());
        message.append(" > ");
        push_dec_len(&mut message, MAX_DECMPFS_XATTR_SIZE);
        message.append(")");
        return Err(Error::new(ErrorKind::Corrupt, message));
    }
    let magic: u32 = match u32_at(data, 0) {
        Ok(magic) => magic,
        Err(error) => return Err(error),
    };
    if magic != DECMPFS_MAGIC {
        let mut message = "invalid decmpfs magic 0x".to_owned();
        message.append(hex_padded_text(magic as u64, 8).as_str());
        message.append(" (expected 0x");
        message.append(hex_padded_text(DECMPFS_MAGIC as u64, 8).as_str());
        message.append(")");
        return Err(Error::new(ErrorKind::Corrupt, message));
    }
    let compression_type: u32 = match u32_at(data, 4) {
        Ok(value) => value,
        Err(error) => return Err(error),
    };
    let uncompressed_size: u64 = match u64_at(data, 8) {
        Ok(value) => value,
        Err(error) => return Err(error),
    };
    Ok(Header { compression_type, uncompressed_size })
}

// ---------------------------------------------------------------------------
// Checksum
// ---------------------------------------------------------------------------

/// The modulus of both Adler-32 sums.
pub const MOD_ADLER: u32 = 65_521;

/// One plus the sum of all bytes.
pub open spec fn byte_sum(data: Seq<u8>) -> int
    decreases data.len(),
{
    if data.len() == 0 {
        1
    } else {
        byte_sum(data.drop_last()) + data.last()
    }
}

/// The sum of the byte sums of all prefixes that are not empty.
pub open spec fn prefix_sum(data: Seq<u8>) -> int
    decreases data.len(),
{
    if data.len() == 0 {
        0
    } else {
        prefix_sum(data.drop_last()) + byte_sum(data)
    }
}

/// The Adler-32 checksum: both sums modulo 65521, the second in the high half.
pub open spec fn adler(data: Seq<u8>) -> u32 {
    (prefix_sum(data) % (MOD_ADLER as int) * 0x1_0000 + byte_sum(data) % (MOD_ADLER as int)) as u32
}

fn adler32(data: &Vec<u8>) -> (r: u32)
    ensures
        r == adler(data@),
{
    let mut a: u32 = 1;
    let mut b: u32 = 0;
    let mut i: usize = 0;
    proof {
        assert(data@.take(0) =~= Seq::empty());
    }
    while i < data.len()
        invariant
            i <= data@.len(),
            a < MOD_ADLER,
            b < MOD_ADLER,
            a == byte_sum(data@.take(i as int)) % (MOD_ADLER as int),
            b == prefix_sum(data@.take(i as int)) % (MOD_ADLER as int),
        decreases data@.len() - i,
    {
        proof {
            let next = data@.take(i + 1);
            assert(next.drop_last() =~= data@.take(i as int));
            assert(next.last() == data@[i as int]);
            vstd::arithmetic::div_mod::lemma_add_mod_noop(
                byte_sum(data@.take(i as int)),
                data@[i as int] as int,
                MOD_ADLER as int,
            );
            vstd::arithmetic::div_mod::lemma_add_mod_noop(
                prefix_sum(data@.take(i as int)),
                byte_sum(next),
                MOD_ADLER as int,
            );
        }
        a = (a + data[i] as u32) % MOD_ADLER;
        b = (b + a) % MOD_ADLER;
        i += 1;
    }
    proof {
        assert(data@.take(i as int) =~= data@);
    }
    b * 0x1_0000 + a
}

// ---------------------------------------------------------------------------
// Decoding
// ---------------------------------------------------------------------------

/// A decoder of compressed streams. A platform may have none.
pub trait Codec {
    /// Whether the platform has a decoder at all.
    fn is_available(&self) -> (r: bool);

    /// Decodes `source` by `algorithm` into at most `capacity` bytes, and gives
    /// those that were decoded.
    fn decode(&self, source: &Vec<u8>, capacity: usize, algorithm: u32) -> (r: Vec<u8>);
}

/// The decoder of a platform that has none.
pub struct NoCodec;

impl Codec for NoCodec {
    fn is_available(&self) -> (r: bool)
        ensures
            !r,
    {
        false
    }

    fn decode(&self, source: &Vec<u8>, capacity: usize, algorithm: u32) -> (r: Vec<u8>)
        ensures
            r@ == Seq::<u8>::empty(),
    {
        Vec::new()
    }
}

/// The bytes that a decoder gave, if they are as many as expected.
pub open spec fn exactly(decoded: Seq<u8>, expected: u64) -> Result<Seq<u8>, ErrorView> {
    if decoded.len() == expected {
        Ok(decoded)
    } else {
        Err(
            corrupt(
                "decmpfs stream decoded to "@ + dec(decoded.len()) + " bytes, expected "@ + dec(
                    expected as nat,
                ),
            ),
        )
    }
}

/// Accepts what a decoder gave only if it is as long as expected.
pub fn accept_exact(decoded: Vec<u8>, expected: u64) -> (r: Result<Vec<u8>, Error>)
    ensures
        viewed(r) == exactly(decoded@, expected),
{
    if decoded.len() as u64 != expected {
        let mut message = "decmpfs stream decoded to ".to_owned();
        push_dec_len(&mut message, decoded.len());
        message.append(" bytes, expected ");
        push_dec(&mut message, expected);
        return Err(Error::new(ErrorKind::Corrupt, message));
    }
    Ok(decoded)
}

/// What decoding `source` into `expected` bytes gives. The decoder gets room for
/// one byte more, so that a stream which expands past the declared size shows
/// itself instead of being cut to a prefix.
pub open spec fn decoded_by<C: Codec>(
    codec: &C,
    source: Seq<u8>,
    expected: u64,
    algorithm: u32,
    r: Result<Vec<u8>, Error>,
) -> bool {
    exists|available: bool|
        {
            &&& #[trigger] call_ensures(C::is_available, (codec,), available)
            &&& if !available {
                viewed(r) == Err::<Seq<u8>, ErrorView>(
                    failure(
                        ErrorKind::UnsupportedFeature,
                        "decmpfs algorithm "@ + hex_prefixed(algorithm as nat)
                            + " requires the macOS Compression framework"@,
                    ),
                )
            } else if expected > usize::MAX {
                viewed(r) == Err::<Seq<u8>, ErrorView>(
                    corrupt("decmpfs uncompressed size does not fit this platform"@),
                )
            } else if expected == usize::MAX {
                viewed(r) == Err::<Seq<u8>, ErrorView>(corrupt("decmpfs output size overflow"@))
            } else {
                ||| viewed(r) == Err::<Seq<u8>, ErrorView>(
                    failure(
                        ErrorKind::Io,
                        "cannot allocate "@ + dec((expected + 1) as nat)
                            + " bytes for decmpfs output"@,
                    ),
                )
                ||| decoded_exactly(codec, source, expected, algorithm, r)
            }
        }
}

/// What decoding `source` into `expected` bytes gives, once there is room for them and
/// for one more.
pub open spec fn decoded_exactly<C: Codec>(
    codec: &C,
    source: Seq<u8>,
    expected: u64,
    algorithm: u32,
    r: Result<Vec<u8>, Error>,
) -> bool {
    exists|input: Vec<u8>, decoded: Vec<u8>|
        {
            &&& input@ == source
            &&& #[trigger] call_ensures(
                C::decode,
                (codec, &input, (expected + 1) as usize, algorithm),
                decoded,
            )
            &&& viewed(r) == exactly(decoded@, expected)
        }
}

/// Decodes `source` into `expected` bytes, where there is room for them and for one
/// more.
pub fn decode_reserved<C: Codec>(
    codec: &C,
    source: &Vec<u8>,
    expected: u64,
    algorithm: u32,
) -> (r: Result<Vec<u8>, Error>)
    requires
        expected < usize::MAX,
    ensures
        decoded_exactly(codec, source@, expected, algorithm, r),
{
    let decoded = codec.decode(source, expected as usize + 1, algorithm);
    let ghost reply = decoded;
    let r = accept_exact(decoded, expected);
    proof {
        assert(call_ensures(
            C::decode,
            (codec, source, (expected + 1) as usize, algorithm),
            reply,
        ));
    }
    r
}

fn decode_with_compression<C: Codec>(
    codec: &C,
    source: &Vec<u8>,
    expected: u64,
    algorithm: u32,
) -> (r: Result<Vec<u8>, Error>)
    ensures
        decoded_by(codec, source@, expected, algorithm, r),
{
    let available = codec.is_available();
    if !available {
        let mut message = "decmpfs algorithm ".to_owned();
        push_hex(&mut message, algorithm as u64);
        message.append(" requires the macOS Compression framework");
        return Err(Error::new(ErrorKind::UnsupportedFeature, message));
    }
    if expected > usize::MAX as u64 {
        return Err(
            Error::fixed(
                ErrorKind::Corrupt,
                "decmpfs uncompressed size does not fit this platform",
            ),
        );
    }
    if expected == usize::MAX as u64 {
        return Err(Error::fixed(ErrorKind::Corrupt, "decmpfs output size overflow"));
    }
    let capacity: usize = expected as usize + 1;
    let mut room: Vec<u8> = Vec::new();
    match room.try_reserve(capacity) {
        Ok(_) => {},
        Err(_) => {
            let mut message = "cannot allocate ".to_owned();
            push_dec_len(&mut message, capacity);
            message.append(" bytes for decmpfs output");
            return Err(Error::new(ErrorKind::Io, message));
        },
    }
    decode_reserved(codec, source, expected, algorithm)
}

/// The zlib wrapper around `payload` is sound and its stream can be decoded.
pub open spec fn zlib_wrapper(payload: Seq<u8>) -> Result<(), ErrorView> {
    if payload.len() < 6 {
        Err(corrupt("decmpfs zlib payload is shorter than its wrapper"@))
    } else if payload[0] % 16 != 8 || payload[0] / 16 > 7 || (payload[0] * 256 + payload[1]) % 31
        != 0 {
        Err(corrupt("invalid decmpfs zlib header"@))
    } else if payload[1] / 32 % 2 != 0 {
        Err(
            failure(
                ErrorKind::UnsupportedFeature,
                "decmpfs zlib preset dictionaries are not supported"@,
            ),
        )
    } else {
        Ok(())
    }
}

/// The big-endian number in `s[at..at + 4]`.
pub open spec fn be_u32(s: Seq<u8>, at: int) -> u32 {
    (s[at] * 0x100_0000 + s[at + 1] * 0x1_0000 + s[at + 2] * 0x100 + s[at + 3]) as u32
}

/// The decoded bytes, if their checksum is `expected`.
pub open spec fn with_adler(decoded: Seq<u8>, expected: u32) -> Result<Seq<u8>, ErrorView> {
    if adler(decoded) == expected {
        Ok(decoded)
    } else {
        Err(
            corrupt(
                "decmpfs zlib Adler-32 mismatch (0x"@ + hex_padded(adler(decoded) as nat, 8)
                    + " != 0x"@ + hex_padded(expected as nat, 8) + ")"@,
            ),
        )
    }
}

/// Accepts decoded bytes only if their Adler-32 checksum is `expected`.
pub fn accept_adler(decoded: Vec<u8>, expected: u32) -> (r: Result<Vec<u8>, Error>)
    ensures
        viewed(r) == with_adler(decoded@, expected),
{
    let actual: u32 = adler32(&decoded);
    if actual != expected {
        let mut message = "decmpfs zlib Adler-32 mismatch (0x".to_owned();
        message.append(hex_padded_text(actual as u64, 8).as_str());
        message.append(" != 0x");
        message.append(hex_padded_text(expected as u64, 8).as_str());
        message.append(")");
        return Err(Error::new(ErrorKind::Corrupt, message));
    }
    Ok(decoded)
}

/// What decoding a zlib payload gives: the wrapper is checked and removed, the raw
/// stream decoded, and the result held against the wrapper's checksum.
pub open spec fn zlib_decoded<C: Codec>(
    codec: &C,
    payload: Seq<u8>,
    expected: u64,
    r: Result<Vec<u8>, Error>,
) -> bool {
    match zlib_wrapper(payload) {
        Err(error) => viewed(r) == Err::<Seq<u8>, ErrorView>(error),
        Ok(_) => {
            let trailer = payload.len() - 4;
            exists|raw: Result<Vec<u8>, Error>| #[trigger]
                decoded_by(codec, payload.subrange(2, trailer), expected, COMPRESSION_ZLIB, raw)
                    && match raw {
                    Err(error) => r matches Err(e) && e == error,
                    Ok(decoded) => viewed(r) == with_adler(decoded@, be_u32(payload, trailer)),
                }
        },
    }
}

fn copy_range(data: &[u8], from: usize, to: usize) -> (r: Vec<u8>)
    requires
        from <= to <= data@.len(),
    ensures
        r@ == data@.subrange(from as int, to as int),
{
    let mut out: Vec<u8> = Vec::new();
    let mut i: usize = from;
    while i < to
        invariant
            from <= i <= to <= data@.len(),
            out@ =~= data@.subrange(from as int, i as int),
        decreases to - i,
    {
        out.push(data[i]);
        i += 1;
    }
    out
}

fn decode_zlib<C: Codec>(codec: &C, payload: &Vec<u8>, expected: u64) -> (r: Result<
    Vec<u8>,
    Error,
>)
    ensures
        zlib_decoded(codec, payload@, expected, r),
{
    if payload.len() < 6 {
        return Err(
            Error::fixed(
                ErrorKind::Corrupt,
                "decmpfs zlib payload is shorter than its wrapper",
            ),
        );
    }
    let cmf: u8 = payload[0];
    let flg: u8 = payload[1];
    if cmf % 16 != 8 || cmf / 16 > 7 || (cmf as u32 * 256 + flg as u32) % 31 != 0 {
        return Err(Error::fixed(ErrorKind::Corrupt, "invalid decmpfs zlib header"));
    }
    if flg / 32 % 2 != 0 {
        return Err(
            Error::fixed(
                ErrorKind::UnsupportedFeature,
                "decmpfs zlib preset dictionaries are not supported",
            ),
        );
    }
    let trailer: usize = payload.len() - 4;
    let expected_adler: u32 = payload[trailer] as u32 * 0x100_0000 + payload[trailer + 1] as u32
        * 0x1_0000 + payload[trailer + 2] as u32 * 0x100 + payload[trailer + 3] as u32;
    let source = copy_range(payload.as_slice(), 2, trailer);
    let raw = decode_with_compression(codec, &source, expected, COMPRESSION_ZLIB);
    match raw {
        Err(error) => Err(error),
        Ok(decoded) => accept_adler(decoded, expected_adler),
    }
}

/// The little-endian bytes of `n`.
pub open spec fn le_bytes(n: u32) -> Seq<u8> {
    seq![
        (n % 0x100) as u8,
        (n / 0x100 % 0x100) as u8,
        (n / 0x1_0000 % 0x100) as u8,
        (n / 0x100_0000) as u8,
    ]
}

fn push_le(out: &mut Vec<u8>, n: u32)
    ensures
        final(out)@ == old(out)@ + le_bytes(n),
{
    let ghost before = out@;
    out.push((n % 0x100) as u8);
    out.push((n / 0x100 % 0x100) as u8);
    out.push((n / 0x1_0000 % 0x100) as u8);
    out.push((n / 0x100_0000) as u8);
    proof {
        assert(out@ =~= before + le_bytes(n));
    }
}

/// A bare LZVN payload as an LZFSE stream of one block.
pub open spec fn framed(payload: Seq<u8>, raw_size: u32) -> Seq<u8> {
    le_bytes(LZFSE_LZVN_BLOCK_MAGIC) + le_bytes(raw_size) + le_bytes(payload.len() as u32) + payload
        + le_bytes(LZFSE_END_MAGIC)
}

/// Frames a bare LZVN payload as an LZFSE stream of one block, behind what `stream`
/// holds.
pub fn frame_lzvn(payload: &Vec<u8>, raw_size: u32, stream: &mut Vec<u8>)
    requires
        payload@.len() <= u32::MAX,
    ensures
        final(stream)@ == old(stream)@ + framed(payload@, raw_size),
{
    push_le(stream, LZFSE_LZVN_BLOCK_MAGIC);
    push_le(stream, raw_size);
    push_le(stream, payload.len() as u32);
    stream.extend_from_slice(payload.as_slice());
    push_le(stream, LZFSE_END_MAGIC);
    proof {
        assert(stream@ =~= old(stream)@ + framed(payload@, raw_size));
    }
}

/// What decoding a bare LZVN payload gives: it is framed as an LZFSE stream and
/// decoded as such.
pub open spec fn lzvn_decoded<C: Codec>(
    codec: &C,
    payload: Seq<u8>,
    expected: u64,
    r: Result<Vec<u8>, Error>,
) -> bool {
    if expected > u32::MAX {
        viewed(r) == Err::<Seq<u8>, ErrorView>(
            corrupt("decmpfs LZVN uncompressed size exceeds 32-bit block format"@),
        )
    } else if payload.len() > u32::MAX {
        viewed(r) == Err::<Seq<u8>, ErrorView>(
            corrupt("decmpfs LZVN payload exceeds 32-bit block format"@),
        )
    } else if payload.len() + 16 > usize::MAX {
        viewed(r) == Err::<Seq<u8>, ErrorView>(corrupt("decmpfs LZVN wrapper size overflow"@))
    } else {
        ||| viewed(r) == Err::<Seq<u8>, ErrorView>(
            failure(ErrorKind::Io, "cannot allocate decmpfs LZVN wrapper"@),
        )
        ||| decoded_by(codec, framed(payload, expected as u32), expected, COMPRESSION_LZFSE, r)
    }
}

fn decode_lzvn<C: Codec>(codec: &C, payload: &Vec<u8>, expected: u64) -> (r: Result<
    Vec<u8>,
    Error,
>)
    ensures
        lzvn_decoded(codec, payload@, expected, r),
{
    if expected > u32::MAX as u64 {
        return Err(
            Error::fixed(
                ErrorKind::Corrupt,
                "decmpfs LZVN uncompressed size exceeds 32-bit block format",
            ),
        );
    }
    let raw_size: u32 = expected as u32;
    if payload.len() as u64 > u32::MAX as u64 {
        return Err(
            Error::fixed(
                ErrorKind::Corrupt,
                "decmpfs LZVN payload exceeds 32-bit block format",
            ),
        );
    }
    let capacity: usize = match payload.len().checked_add(16) {
        Some(capacity) => capacity,
        None => return Err(
            Error::fixed(ErrorKind::Corrupt, "decmpfs LZVN wrapper size overflow"),
        ),
    };
    let mut stream: Vec<u8> = Vec::new();
    match stream.try_reserve(capacity) {
        Ok(_) => {},
        Err(_) => return Err(
            Error::fixed(ErrorKind::Io, "cannot allocate decmpfs LZVN wrapper"),
        ),
    }
    frame_lzvn(payload, raw_size, &mut stream);
    proof {
        assert(stream@ =~= framed(payload@, raw_size));
    }
    decode_with_compression(codec, &stream, expected, COMPRESSION_LZFSE)
}

/// Stored bytes, if they are as many as the header says.
pub open spec fn raw_bytes(payload: Seq<u8>, expected: u64, what: Seq<char>) -> Result<
    Seq<u8>,
    ErrorView,
> {
    if payload.len() == expected {
        Ok(payload)
    } else {
        Err(
            corrupt(
                "decmpfs "@ + what + " length "@ + dec(payload.len())
                    + " does not match uncompressed size "@ + dec(expected as nat),
            ),
        )
    }
}

fn exact_raw(payload: Vec<u8>, expected: u64, what: &str) -> (r: Result<Vec<u8>, Error>)
    ensures
        viewed(r) == raw_bytes(payload@, expected, what@),
{
    if payload.len() as u64 != expected {
        let mut message = "decmpfs ".to_owned();
        message.append(what);
        message.append(" length ");
        push_dec_len(&mut message, payload.len());
        message.append(" does not match uncompressed size ");
        push_dec(&mut message, expected);
        return Err(Error::new(ErrorKind::Corrupt, message));
    }
    Ok(payload)
}

/// What decoding the payload behind `header` gives. A payload can also be stored
/// as it is, behind a marker byte that no compressed stream begins with.
pub open spec fn payload_decoded<C: Codec>(
    codec: &C,
    header: Header,
    payload: Seq<u8>,
    r: Result<Vec<u8>, Error>,
) -> bool {
    let size = header.uncompressed_size;
    if header.spec_storage() != Storage::Embedded {
        viewed(r) == Err::<Seq<u8>, ErrorView>(
            failure(
                ErrorKind::UnsupportedFeature,
                "decmpfs type "@ + dec(header.compression_type as nat)
                    + " is not an embedded compression type"@,
            ),
        )
    } else if header.compression_type == TYPE_UNCOMPRESSED_ATTR {
        viewed(r) == raw_bytes(payload, size, "type 1 payload"@)
    } else if header.compression_type == TYPE_ZLIB_ATTR {
        if payload.len() > 0 && payload[0] % 16 == 15 {
            viewed(r) == raw_bytes(payload.skip(1), size, "zlib raw marker"@)
        } else {
            zlib_decoded(codec, payload, size, r)
        }
    } else {
        if payload.len() > 0 && payload[0] == 0x06 {
            viewed(r) == raw_bytes(payload.skip(1), size, "LZVN raw marker"@)
        } else {
            lzvn_decoded(codec, payload, size, r)
        }
    }
}

fn decode_payload<C: Codec>(codec: &C, header: Header, payload: Vec<u8>) -> (r: Result<
    Vec<u8>,
    Error,
>)
    ensures
        payload_decoded(codec, header, payload@, r),
{
    let size: u64 = header.uncompressed_size;
    if header.storage() != Storage::Embedded {
        let mut message = "decmpfs type ".to_owned();
        push_dec(&mut message, header.compression_type as u64);
        message.append(" is not an embedded compression type");
        return Err(Error::new(ErrorKind::UnsupportedFeature, message));
    }
    if header.compression_type == TYPE_UNCOMPRESSED_ATTR {
        exact_raw(payload, size, "type 1 payload")
    } else if header.compression_type == TYPE_ZLIB_ATTR {
        if payload.len() > 0 && payload[0] % 16 == 15 {
            let stored = copy_range(payload.as_slice(), 1, payload.len());
            proof {
                assert(stored@ =~= payload@.skip(1));
            }
            exact_raw(stored, size, "zlib raw marker")
        } else {
            decode_zlib(codec, &payload, size)
        }
    } else {
        if payload.len() > 0 && payload[0] == 0x06 {
            let stored = copy_range(payload.as_slice(), 1, payload.len());
            proof {
                assert(stored@ =~= payload@.skip(1));
            }
            exact_raw(stored, size, "LZVN raw marker")
        } else {
            decode_lzvn(codec, &payload, size)
        }
    }
}

/// What decoding the raw attribute `data` gives.
pub open spec fn embedded_decoded<C: Codec>(
    codec: &C,
    data: Seq<u8>,
    r: Result<Vec<u8>, Error>,
) -> bool {
    match header_of(data) {
        Err(error) => viewed(r) == Err::<Seq<u8>, ErrorView>(error),
        Ok(header) => payload_decoded(codec, header, data.skip(DECMPFS_HEADER_LEN as int), r),
    }
}

/// Decodes an embedded payload and appends it to `writer`, only after all checks
/// of structure, stream, length and checksum have passed. Gives the number of
/// bytes written.
pub fn write_embedded<C: Codec>(data: &[u8], codec: &C, writer: &mut Vec<u8>) -> (r: Result<
    u64,
    Error,
>)
    ensures
        exists|decoded: Result<Vec<u8>, Error>| #[trigger]
            embedded_decoded(codec, data@, decoded) && match decoded {
                Err(error) => (r matches Err(e) && e == error) && final(writer)@ == old(writer)@,
                Ok(bytes) => (r matches Ok(n) && n == bytes@.len()) && final(writer)@ == old(
                    writer,
                )@ + bytes@,
            },
{
    let header = match parse_header(data) {
        Ok(header) => header,
        Err(error) => {
            proof {
                assert(embedded_decoded(codec, data@, Err(error)));
            }
            return Err(error);
        },
    };
    let payload = copy_range(data, DECMPFS_HEADER_LEN, data.len());
    proof {
        assert(payload@ =~= data@.skip(DECMPFS_HEADER_LEN as int));
    }
    let decoded = decode_payload(codec, header, payload);
    proof {
        assert(embedded_decoded(codec, data@, decoded));
    }
    match decoded {
        Err(error) => Err(error),
        Ok(bytes) => {
            writer.extend_from_slice(bytes.as_slice());
            proof {
                assert(writer@ =~= old(writer)@ + bytes@);
            }
            Ok(bytes.len() as u64)
        },
    }
}

/// Decoded bytes are always as many as the header says, and those of a zlib stream
/// have the checksum that stands behind the stream.
pub proof fn law_decoded_bytes_are_checked<C: Codec>(codec: &C, data: Seq<u8>, bytes: Vec<u8>)
    requires
        embedded_decoded(codec, data, Ok(bytes)),
    ensures
        header_of(data) matches Ok(header) && {
            let payload = data.skip(DECMPFS_HEADER_LEN as int);
            &&& header.spec_storage() == Storage::Embedded
            &&& bytes@.len() == header.uncompressed_size
            &&& header.compression_type == TYPE_ZLIB_ATTR && !(payload.len() > 0 && payload[0] % 16
                == 15) ==> payload.len() >= 6 && adler(bytes@) == be_u32(payload, payload.len() - 4)
        },
{
}

// ---------------------------------------------------------------------------
// Laws on the bytes
// ---------------------------------------------------------------------------

/// The attribute begins with the bytes `fpmc`; the type and the size stand behind them,
/// lowest byte first. An attribute of another length or beginning is corrupt.
pub proof fn law_header_is_read_from_its_bytes(data: Seq<u8>)
    ensures
        header_of(data) is Ok <==> 16 <= data.len() <= 3802 && data[0] == 0x66 && data[1] == 0x70
            && data[2] == 0x6d && data[3] == 0x63,
        header_of(data) matches Ok(header) ==> header.compression_type == number_at(data, 4, 4)
            && header.uncompressed_size == number_at(data, 8, 8),
        header_of(data) matches Err(error) ==> error.kind == ErrorKind::Corrupt,
{
    reveal_with_fuel(number_at, 9);
    if data.len() >= 16 {
        assert(le_u32(data, 0) == number_at(data, 0, 4));
        assert(le_u32(data, 4) == number_at(data, 4, 4));
        assert(le_u64(data, 8) == number_at(data, 8, 8));
    }
}

/// The type tells where the compressed bytes are and how they are compressed.
pub proof fn law_type_tells_place_and_codec(header: Header)
    ensures
        header.spec_storage() is Embedded <==> header.compression_type == 1
            || header.compression_type == 3 || header.compression_type == 7,
        header.spec_storage() is ResourceFork <==> header.compression_type == 4
            || header.compression_type == 8,
        header.compression_type == 1 ==> header.spec_codec() == "none"@,
        header.compression_type == 3 || header.compression_type == 4 ==> header.spec_codec()
            == "zlib"@,
        header.compression_type == 7 || header.compression_type == 8 ==> header.spec_codec()
            == "lzvn"@,
        header.spec_storage() is Kernel ==> header.spec_codec() == "kernel"@,
        Storage::Embedded.name() == "embedded"@,
        Storage::ResourceFork.name() == "resource-fork"@,
        Storage::Kernel.name() == "kernel"@,
{
}

/// The checksum of nothing is one; each byte adds to the low half, and the new low half
/// to the high one, both modulo the largest prime below 2^16.
pub proof fn law_checksum_grows_byte_by_byte(data: Seq<u8>, byte: u8)
    ensures
        adler(Seq::empty()) == 1,
        ({
            let before = adler(data);
            let after = adler(data.push(byte));
            &&& after % 0x1_0000 == (before % 0x1_0000 + byte) % 65521
            &&& after / 0x1_0000 == (before / 0x1_0000 + after % 0x1_0000) % 65521
        }),
{
    let m: int = 65521;
    let a = byte_sum(data);
    let b = prefix_sum(data);
    let next = data.push(byte);
    assert(next.drop_last() =~= data);
    assert(byte_sum(next) == a + byte);
    assert(prefix_sum(next) == b + byte_sum(next));
    lemma_halves(data);
    lemma_halves(next);
    vstd::arithmetic::div_mod::lemma_add_mod_noop(a, byte as int, m);
    vstd::arithmetic::div_mod::lemma_add_mod_noop(b, byte_sum(next), m);
    assert((a % m + byte as int % m) % m == (a % m + byte) % m);
}

proof fn lemma_halves(data: Seq<u8>)
    ensures
        adler(data) % 0x1_0000 == byte_sum(data) % 65521,
        adler(data) / 0x1_0000 == prefix_sum(data) % 65521,
{
    let a = byte_sum(data) % 65521;
    let b = prefix_sum(data) % 65521;
    assert(0 <= a < 65521 && 0 <= b < 65521);
    assert(adler(data) == b * 0x1_0000 + a);
}

/// The decoder was asked for the stream `source` with algorithm `algorithm`, with room for
/// one byte more than expected, and gave `decoded`.
pub open spec fn decoder_gave<C: Codec>(
    codec: &C,
    source: Seq<u8>,
    expected: u64,
    algorithm: u32,
    decoded: Seq<u8>,
) -> bool {
    exists|input: Vec<u8>, capacity: usize, output: Vec<u8>|
        input@ == source && capacity == expected + 1 && output@ == decoded
            && #[trigger] call_ensures(
            C::decode,
            (codec, &input, capacity, algorithm),
            output,
        )
}

/// What a decoder gives counts only if it is as long as expected. It is refused for no
/// other reason than that there is no decoder, no room, or another number of bytes.
pub proof fn law_decoder_gives_what_was_expected<C: Codec>(
    codec: &C,
    source: Seq<u8>,
    expected: u64,
    algorithm: u32,
    r: Result<Vec<u8>, Error>,
)
    requires
        decoded_by(codec, source, expected, algorithm, r),
    ensures
        r matches Ok(bytes) ==> bytes@.len() == expected && decoder_gave(
            codec,
            source,
            expected,
            algorithm,
            bytes@,
        ) && call_ensures(C::is_available, (codec,), true),
        r matches Err(error) ==> {
            ||| error.kind == ErrorKind::UnsupportedFeature && call_ensures(
                C::is_available,
                (codec,),
                false,
            )
            ||| error.kind == ErrorKind::Io
            ||| error.kind == ErrorKind::Corrupt && expected >= usize::MAX
            ||| error.kind == ErrorKind::Corrupt && exists|decoded: Seq<u8>| #[trigger]
                decoder_gave(codec, source, expected, algorithm, decoded) && decoded.len()
                    != expected
        },
{
    let available = choose|available: bool|
        {
            &&& #[trigger] call_ensures(C::is_available, (codec,), available)
            &&& if !available {
                viewed(r) == Err::<Seq<u8>, ErrorView>(
                    failure(
                        ErrorKind::UnsupportedFeature,
                        "decmpfs algorithm "@ + hex_prefixed(algorithm as nat)
                            + " requires the macOS Compression framework"@,
                    ),
                )
            } else if expected > usize::MAX {
                viewed(r) == Err::<Seq<u8>, ErrorView>(
                    corrupt("decmpfs uncompressed size does not fit this platform"@),
                )
            } else if expected == usize::MAX {
                viewed(r) == Err::<Seq<u8>, ErrorView>(corrupt("decmpfs output size overflow"@))
            } else {
                ||| viewed(r) == Err::<Seq<u8>, ErrorView>(
                    failure(
                        ErrorKind::Io,
                        "cannot allocate "@ + dec((expected + 1) as nat)
                            + " bytes for decmpfs output"@,
                    ),
                )
                ||| decoded_exactly(codec, source, expected, algorithm, r)
            }
        };
    assert(available ==> call_ensures(C::is_available, (codec,), true));
    if available && expected < usize::MAX && decoded_exactly(codec, source, expected, algorithm, r) {
        let (input, decoded) = choose|input: Vec<u8>, decoded: Vec<u8>|
            {
                &&& input@ == source
                &&& #[trigger] call_ensures(
                    C::decode,
                    (codec, &input, (expected + 1) as usize, algorithm),
                    decoded,
                )
                &&& viewed(r) == exactly(decoded@, expected)
            };
        let capacity = (expected + 1) as usize;
        assert(call_ensures(C::decode, (codec, &input, capacity, algorithm), decoded));
        assert(decoder_gave(codec, source, expected, algorithm, decoded@));
    }
}

/// The two bytes before a zlib stream are its method and flags. The method is 8 with a
/// window of at most 2^15 bytes, both bytes together are a multiple of 31, and a stream is
/// refused as one with a preset dictionary exactly where the sixth flag is set.
pub proof fn law_zlib_header_is_told_by_its_bits(payload: Seq<u8>)
    ensures
        payload.len() < 6 ==> (zlib_wrapper(payload) matches Err(error) && error.kind
            == ErrorKind::Corrupt),
        payload.len() >= 6 ==> {
            let sound = payload[0] & 0x0f == 8 && payload[0] >> 4 <= 7 && (256 * payload[0]
                + payload[1]) % 31 == 0;
            &&& !sound ==> (zlib_wrapper(payload) matches Err(error) && error.kind
                == ErrorKind::Corrupt)
            &&& sound && payload[1] & 0x20 != 0 ==> (zlib_wrapper(payload) matches Err(error)
                && error.kind == ErrorKind::UnsupportedFeature)
            &&& sound && payload[1] & 0x20 == 0 ==> zlib_wrapper(payload) is Ok
        },
{
    if payload.len() >= 6 {
        let cmf = payload[0];
        let flg = payload[1];
        assert(cmf & 0x0f == cmf % 16) by (bit_vector);
        assert(cmf >> 4 == cmf / 16) by (bit_vector);
        assert((flg & 0x20 != 0) == (flg / 32 % 2 != 0)) by (bit_vector);
    }
}

/// A sound zlib payload is decoded by giving the decoder all that lies between the two
/// bytes before the stream and the four behind it. The bytes it gives are accepted exactly
/// if they are as many as expected and have the checksum in those four bytes, highest
/// first.
pub proof fn law_zlib_stream_is_decoded<C: Codec>(
    codec: &C,
    payload: Seq<u8>,
    expected: u64,
    r: Result<Vec<u8>, Error>,
)
    requires
        zlib_decoded(codec, payload, expected, r),
        payload.len() >= 6,
        payload[0] & 0x0f == 8,
        payload[0] >> 4 <= 7,
        (256 * payload[0] + payload[1]) % 31 == 0,
        payload[1] & 0x20 == 0,
    ensures
        ({
            let n = payload.len() as int;
            let stream = Seq::new((n - 6) as nat, |i: int| payload[i + 2]);
            let sum = payload[n - 1] + 0x100 * payload[n - 2] + 0x1_0000 * payload[n - 3]
                + 0x100_0000 * payload[n - 4];
            &&& r matches Ok(bytes) ==> bytes@.len() == expected && adler(bytes@) == sum
                && decoder_gave(codec, stream, expected, 0x205u32, bytes@)
            &&& r matches Err(error) ==> {
                ||| error.kind == ErrorKind::UnsupportedFeature && call_ensures(
                    C::is_available,
                    (codec,),
                    false,
                )
                ||| error.kind == ErrorKind::Io
                ||| error.kind == ErrorKind::Corrupt && expected >= usize::MAX
                ||| error.kind == ErrorKind::Corrupt && exists|decoded: Seq<u8>| #[trigger]
                    decoder_gave(codec, stream, expected, 0x205u32, decoded) && (decoded.len()
                        != expected || adler(decoded) != sum)
            }
        }),
{
    law_zlib_header_is_told_by_its_bits(payload);
    let n = payload.len() as int;
    let trailer = n - 4;
    let stream = Seq::new((n - 6) as nat, |i: int| payload[i + 2]);
    assert(stream =~= payload.subrange(2, trailer));
    let sum = payload[n - 1] + 0x100 * payload[n - 2] + 0x1_0000 * payload[n - 3] + 0x100_0000
        * payload[n - 4];
    assert(be_u32(payload, trailer) == sum);
    let raw = choose|raw: Result<Vec<u8>, Error>| #[trigger]
        decoded_by(codec, payload.subrange(2, trailer), expected, COMPRESSION_ZLIB, raw)
            && match raw {
            Err(error) => r matches Err(e) && e == error,
            Ok(decoded) => viewed(r) == with_adler(decoded@, be_u32(payload, trailer)),
        };
    law_decoder_gives_what_was_expected(codec, stream, expected, COMPRESSION_ZLIB, raw);
    if let Ok(decoded) = raw {
        assert(decoder_gave(codec, stream, expected, 0x205u32, decoded@));
    }
}

/// A bare LZVN payload is framed by the words `bvxn` and `bvx$`, with its decoded and its
/// encoded length behind the first, lowest byte first.
pub proof fn law_lzvn_frame(payload: Seq<u8>, raw_size: u32)
    requires
        payload.len() <= u32::MAX,
    ensures
        ({
            let stream = framed(payload, raw_size);
            let n = payload.len() as int;
            &&& stream.len() == n + 16
            &&& stream[0] == 0x62 && stream[1] == 0x76 && stream[2] == 0x78 && stream[3] == 0x6e
            &&& number_at(stream, 4, 4) == raw_size
            &&& number_at(stream, 8, 4) == n
            &&& forall|i: int| 0 <= i < n ==> stream[12 + i] == #[trigger] payload[i]
            &&& stream[n + 12] == 0x62 && stream[n + 13] == 0x76 && stream[n + 14] == 0x78
                && stream[n + 15] == 0x24
        }),
{
    reveal_with_fuel(number_at, 5);
    let stream = framed(payload, raw_size);
    lemma_le_bytes(raw_size);
    lemma_le_bytes(payload.len() as u32);
    let a = le_bytes(raw_size);
    let b = le_bytes(payload.len() as u32);
    assert(stream[4] == a[0] && stream[5] == a[1] && stream[6] == a[2] && stream[7] == a[3]);
    assert(stream[8] == b[0] && stream[9] == b[1] && stream[10] == b[2] && stream[11] == b[3]);
}

proof fn lemma_le_bytes(n: u32)
    ensures
        le_bytes(n)[0] + 256 * (le_bytes(n)[1] + 256 * (le_bytes(n)[2] + 256 * le_bytes(n)[3])) == n,
{
}

/// What an attribute decodes to is told by its type: type 1 stores its bytes as they are,
/// types 3 and 7 do so behind a marker byte, and otherwise a decoder is asked. No other
/// type is decoded here.
pub proof fn law_payload_is_decoded_by_its_type<C: Codec>(
    codec: &C,
    data: Seq<u8>,
    r: Result<Vec<u8>, Error>,
)
    requires
        embedded_decoded(codec, data, r),
        header_of(data) is Ok,
    ensures
        ({
            let header = header_of(data)->Ok_0;
            let size = header.uncompressed_size;
            let n = data.len() as int;
            let payload = data.skip(16);
            let stored_behind_marker = n > 16 && (header.compression_type == 3 && data[16] & 0x0f
                == 0x0f || header.compression_type == 7 && data[16] == 6);
            &&& header.compression_type == 1 ==> {
                &&& r is Ok <==> n - 16 == size
                &&& r matches Ok(bytes) ==> bytes@ == payload
                &&& r matches Err(error) ==> error.kind == ErrorKind::Corrupt
            }
            &&& stored_behind_marker ==> {
                &&& r is Ok <==> n - 17 == size
                &&& r matches Ok(bytes) ==> bytes@ == data.skip(17)
                &&& r matches Err(error) ==> error.kind == ErrorKind::Corrupt
            }
            &&& header.compression_type == 3 && !stored_behind_marker ==> zlib_decoded(
                codec,
                payload,
                size,
                r,
            )
            &&& header.compression_type == 7 && !stored_behind_marker ==> lzvn_decoded(
                codec,
                payload,
                size,
                r,
            )
            &&& header.compression_type != 1 && header.compression_type != 3
                && header.compression_type != 7 ==> (r matches Err(error) && error.kind
                == ErrorKind::UnsupportedFeature)
        }),
{
    let payload = data.skip(16);
    if data.len() > 16 {
        let first = data[16];
        assert(payload[0] == first);
        assert(first & 0x0f == first % 16) by (bit_vector);
        assert(payload.skip(1) =~= data.skip(17));
    }
}

/// A bare LZVN payload of a size that fits its frame is decoded by giving the decoder the
/// framed stream; what it gives is accepted exactly if it is as long as expected.
pub proof fn law_lzvn_stream_is_decoded<C: Codec>(
    codec: &C,
    payload: Seq<u8>,
    expected: u64,
    r: Result<Vec<u8>, Error>,
)
    requires
        lzvn_decoded(codec, payload, expected, r),
    ensures
        r matches Ok(bytes) ==> {
            &&& expected <= 0xffff_ffff && payload.len() <= 0xffff_ffff
            &&& bytes@.len() == expected
            &&& decoder_gave(codec, framed(payload, expected as u32), expected, 0x801u32, bytes@)
        },
        expected <= 0xffff_ffff && payload.len() + 16 <= 0xffff_ffff ==> (r matches Err(error)
            ==> {
            ||| error.kind == ErrorKind::UnsupportedFeature && call_ensures(
                C::is_available,
                (codec,),
                false,
            )
            ||| error.kind == ErrorKind::Io
            ||| error.kind == ErrorKind::Corrupt && expected >= usize::MAX
            ||| error.kind == ErrorKind::Corrupt && exists|decoded: Seq<u8>| #[trigger]
                decoder_gave(
                    codec,
                    framed(payload, expected as u32),
                    expected,
                    0x801u32,
                    decoded,
                ) && decoded.len() != expected
        }),
        expected > 0xffff_ffff || payload.len() > 0xffff_ffff ==> (r matches Err(error)
            && error.kind == ErrorKind::Corrupt),
{
    if expected <= u32::MAX && payload.len() <= u32::MAX && payload.len() + 16 <= usize::MAX {
        let stream = framed(payload, expected as u32);
        if decoded_by(codec, stream, expected, COMPRESSION_LZFSE, r) {
            law_decoder_gives_what_was_expected(codec, stream, expected, COMPRESSION_LZFSE, r);
        }
    }
}

} // verus!
