use vstd::prelude::*;

use lz4_flex::block::DecompressError;

use crate::connection_handler::{le_bytes_of, pixels_as_le_bytes};
use crate::text::{
    ascii_lower, chars_of, is_white, lower_code, matches_ignoring_case, names_word, same_ignoring_case, setting_view, trim,
    trim_bounds,
};

verus! {

/// The codec that a frame's payload is packed with; its number travels in the frame header.
#[derive(Clone, Copy, Debug, PartialEq, Eq, Structural)]
pub enum CompressionKind {
    /// Frames travel as they are (spelled `none` in settings).
    Raw,
    Zstd,
    Lz4,
}

/// The codec that a setting value names, if any: `none` or `raw`, `zstd`, `lz4`,
/// ignoring surrounding white space and the case of ASCII letters.
pub open spec fn kind_named(s: Seq<char>) -> Option<CompressionKind> {
    if names_word(s, seq!['n', 'o', 'n', 'e']) || names_word(s, seq!['r', 'a', 'w']) {
        Some(CompressionKind::Raw)
    } else if names_word(s, seq!['z', 's', 't', 'd']) {
        Some(CompressionKind::Zstd)
    } else if names_word(s, seq!['l', 'z', '4']) {
        Some(CompressionKind::Lz4)
    } else {
        None
    }
}

/// The value that the compression setting has when the environment does not set it.
pub open spec fn default_compression_setting() -> Seq<char> {
    seq!['l', 'z', '4']
}

/// The codec that the compression setting chooses; `raw` is the setting's value
/// when the environment sets it.
pub open spec fn kind_of_setting(raw: Option<Seq<char>>) -> CompressionKind {
    match raw {
        Some(s) => match kind_named(s) {
            Some(named) => named,
            None => CompressionKind::Zstd,
        },
        None => CompressionKind::Lz4,
    }
}

/// The codec that `create_frame_compression` hands out for `kind`.
pub open spec fn codec_for(kind: CompressionKind) -> FrameCodec {
    match kind {
        CompressionKind::Raw => FrameCodec::Raw(NoCompression),
        CompressionKind::Zstd => FrameCodec::Zstd(ZstdCompression { level: 3 }),
        CompressionKind::Lz4 => FrameCodec::Lz4(Lz4Compression),
    }
}

/// The codec with number `raw` in a frame header, if any.
pub open spec fn kind_of_id(raw: u32) -> Option<CompressionKind> {
    match raw {
        0 => Some(CompressionKind::Raw),
        1 => Some(CompressionKind::Zstd),
        2 => Some(CompressionKind::Lz4),
        _ => None,
    }
}

impl CompressionKind {
    pub open spec fn spec_id(self) -> u32 {
        match self {
            CompressionKind::Raw => 0,
            CompressionKind::Zstd => 1,
            CompressionKind::Lz4 => 2,
        }
    }

    pub open spec fn spec_name(self) -> Seq<char> {
        match self {
            CompressionKind::Raw => seq!['n', 'o', 'n', 'e'],
            CompressionKind::Zstd => seq!['z', 's', 't', 'd'],
            CompressionKind::Lz4 => seq!['l', 'z', '4'],
        }
    }

    /// The codec chosen by the compression setting: `raw` is the setting's value
    /// when the environment sets it. An unset setting means `lz4`; a value that
    /// names no codec means zstd.
    pub fn from_env(raw: Option<&str>) -> (k: Self)
        ensures
            k == kind_of_setting(setting_view(raw)),
    {
        match raw {
            Some(s) => match Self::from_str(s) {
                Some(k) => k,
                None => CompressionKind::Zstd,
            },
            None => {
                proof {
                    assert(kind_named(default_compression_setting()) == Some(CompressionKind::Lz4))
                        by {
                        let w = seq!['l', 'z', '4'];
                        assert(trim(w) =~= w) by {
                            assert(w.skip(0) =~= w);
                            assert(w.take(3) =~= w);
                        }
                        assert(!names_word(w, seq!['n', 'o', 'n', 'e']));
                        assert(!names_word(w, seq!['r', 'a', 'w']));
                        assert(!names_word(w, seq!['z', 's', 't', 'd']));
                    }
                }
                CompressionKind::Lz4
            },
        }
    }

    /// The codec with the number `raw` in a frame header.
    pub fn from_id(raw: u32) -> (k: Option<Self>)
        ensures
            k == kind_of_id(raw),
    {
        match raw {
            0 => Some(CompressionKind::Raw),
            1 => Some(CompressionKind::Zstd),
            2 => Some(CompressionKind::Lz4),
            _ => None,
        }
    }

    /// The codec that `raw` names, if any (see `kind_named`).
    pub fn from_str(raw: &str) -> (k: Option<Self>)
        ensures
            k == kind_named(raw@),
    {
        let chars = chars_of(raw);
        let (start, end) = trim_bounds(chars.as_slice());
        let none_word = ['n', 'o', 'n', 'e'];
        let raw_word = ['r', 'a', 'w'];
        let zstd_word = ['z', 's', 't', 'd'];
        let lz4_word = ['l', 'z', '4'];
        proof {
            assert(none_word@ =~= seq!['n', 'o', 'n', 'e']);
            assert(raw_word@ =~= seq!['r', 'a', 'w']);
            assert(zstd_word@ =~= seq!['z', 's', 't', 'd']);
            assert(lz4_word@ =~= seq!['l', 'z', '4']);
        }
        if matches_ignoring_case(chars.as_slice(), start, end, &none_word) || matches_ignoring_case(
            chars.as_slice(),
            start,
            end,
            &raw_word,
        ) {
            Some(CompressionKind::Raw)
        } else if matches_ignoring_case(chars.as_slice(), start, end, &zstd_word) {
            Some(CompressionKind::Zstd)
        } else if matches_ignoring_case(chars.as_slice(), start, end, &lz4_word) {
            Some(CompressionKind::Lz4)
        } else {
            None
        }
    }

    /// The codec's number in a frame header.
    pub fn id(self) -> (v: u32)
        ensures
            v == self.spec_id(),
    {
        match self {
            CompressionKind::Raw => 0,
            CompressionKind::Zstd => 1,
            CompressionKind::Lz4 => 2,
        }
    }

    /// The codec's name, as the settings spell it.
    pub fn name(self) -> (s: &'static str)
        ensures
            s@ == self.spec_name(),
    {
        proof {
            reveal_strlit("none");
            reveal_strlit("zstd");
            reveal_strlit("lz4");
        }
        match self {
            CompressionKind::Raw => "none",
            CompressionKind::Zstd => "zstd",
            CompressionKind::Lz4 => "lz4",
        }
    }
}

/// A codec's number in a frame header names that codec.
pub proof fn law_kind_id_roundtrip(k: CompressionKind)
    ensures
        kind_of_id(k.spec_id()) == Some(k),
{
}

/// A codec's name, as a setting, chooses that codec.
pub proof fn law_kind_name_roundtrip(k: CompressionKind)
    ensures
        kind_named(k.spec_name()) == Some(k),
{
    let w = k.spec_name();
    crate::text::lemma_trim_unpadded(w);
    assert(names_word(w, w));
    match k {
        CompressionKind::Raw => {},
        CompressionKind::Zstd => {
            assert(lower_code(w[0]) != ('n' as u32));
            assert(!names_word(w, seq!['n', 'o', 'n', 'e']));
            assert(!names_word(w, seq!['r', 'a', 'w']));
        },
        CompressionKind::Lz4 => {
            assert(!names_word(w, seq!['n', 'o', 'n', 'e']));
            assert(lower_code(w[0]) != ('r' as u32));
            assert(!names_word(w, seq!['r', 'a', 'w']));
            assert(lower_code(w[0]) != ('z' as u32));
            assert(!names_word(w, seq!['z', 's', 't', 'd']));
        },
    }
}

/// A setting names a codec as its trimmed, lower-cased form does: trimming
/// and making ASCII capitals small first changes nothing.
pub proof fn law_kind_named_normalised(s: Seq<char>)
    ensures
        kind_named(s) == kind_named(ascii_lower(trim(s))),
{
    let t = trim(s);
    let l = ascii_lower(t);
    crate::text::lemma_trim_ends(s);
    assert(forall|i: int| 0 <= i < t.len() ==> lower_code(#[trigger] l[i]) == lower_code(t[i]));
    if l.len() == 0 {
        assert(trim(l) =~= l);
    } else {
        assert(!is_white(l[0]));
        assert(!is_white(l.last()));
        crate::text::lemma_trim_unpadded(l);
    }
    assert(trim(l) == l);
    assert forall|w: Seq<char>| #[trigger] names_word(l, w) == names_word(s, w) by {
        if same_ignoring_case(l, w) {
            assert(forall|i: int| 0 <= i < t.len() ==> lower_code(#[trigger] t[i]) == lower_code(l[i]));
        }
    }
    assert(names_word(l, seq!['n', 'o', 'n', 'e']) == names_word(s, seq!['n', 'o', 'n', 'e']));
    assert(names_word(l, seq!['r', 'a', 'w']) == names_word(s, seq!['r', 'a', 'w']));
    assert(names_word(l, seq!['z', 's', 't', 'd']) == names_word(s, seq!['z', 's', 't', 'd']));
    assert(names_word(l, seq!['l', 'z', '4']) == names_word(s, seq!['l', 'z', '4']));
}

/// A failure of a frame codec.
#[derive(Debug)]
pub enum CodecError {
    /// The unpacked frame has `got` bytes where the header announced `expected`.
    SizeMismatch { got: usize, expected: usize },
    /// zstd could not pack the frame.
    ZstdCompress(std::io::Error),
    /// zstd could not unpack the payload.
    ZstdDecompress(std::io::Error),
    /// lz4 could not unpack the payload.
    Lz4Decompress(DecompressError),
}

/// Packs and unpacks frame payloads.
///
/// `can_pack` says on which frames `compress` succeeds and `packs` which
/// payloads it may hand out for them; `unpacks` says what `decompress` makes of
/// a payload, a failure being exactly a `None` of it.
pub trait FrameCompression {
    spec fn spec_kind(&self) -> CompressionKind;

    /// Whether `compress` succeeds on `raw`.
    spec fn can_pack(&self, raw: Seq<u8>) -> bool;

    /// Whether `packed` is a payload that `compress` may make of `raw`.
    spec fn packs(&self, raw: Seq<u8>, packed: Seq<u8>) -> bool;

    /// The frame that `decompress` makes of `packed` when `expected` bytes are
    /// announced, or `None` where it fails.
    spec fn unpacks(&self, packed: Seq<u8>, expected: nat) -> Option<Seq<u8>>;

    fn kind(&self) -> (k: CompressionKind)
        ensures
            k == self.spec_kind(),
    ;

    /// Packs a raw frame; unpacking the payload, with the frame's length
    /// announced, gives the frame back.
    fn compress(&self, input: &[u8]) -> (r: Result<Vec<u8>, CodecError>)
        ensures
            r is Ok <==> self.can_pack(input@),
            r matches Ok(v) ==> self.packs(input@, v@) && self.unpacks(
                v@,
                input@.len(),
            ) == Some(input@),
    ;

    /// Unpacks a payload into a frame of `expected_size` bytes.
    fn decompress(&self, input: &[u8], expected_size: usize) -> (r: Result<Vec<u8>, CodecError>)
        ensures
            r is Ok <==> self.unpacks(input@, expected_size as nat) is Some,
            r matches Ok(v) ==> self.unpacks(input@, expected_size as nat) == Some(v@),
    ;
}

/// Frames travel as they are.
#[derive(Clone, Copy, Debug)]
pub struct NoCompression;

/// Frames are packed with zstd at `level`.
#[derive(Clone, Copy, Debug)]
pub struct ZstdCompression {
    pub level: i32,
}

/// Frames are packed as lz4 blocks.
#[derive(Clone, Copy, Debug)]
pub struct Lz4Compression;

/// One of the three codecs, as `create_frame_compression` hands it out.
#[derive(Clone, Copy, Debug)]
pub enum FrameCodec {
    Raw(NoCompression),
    Zstd(ZstdCompression),
    Lz4(Lz4Compression),
}

/// The outcome of `zstd::stream::encode_all` on `input` at `level`: the zstd
/// frame, or `None` where it fails.
pub uninterp spec fn zstd_encoded(input: Seq<u8>, level: i32) -> Option<Seq<u8>>;

/// The outcome of `zstd::stream::decode_all` on `input`: the bytes it holds,
/// or `None` where it fails.
pub uninterp spec fn zstd_decoded(input: Seq<u8>) -> Option<Seq<u8>>;

/// The outcome of `lz4_flex::block::decompress` on `input` with room for
/// `capacity` bytes: the bytes it holds, or `None` where it fails.
pub uninterp spec fn lz4_decoded(input: Seq<u8>, capacity: usize) -> Option<Seq<u8>>;

#[verifier::external_type_specification]
#[verifier::external_body]
pub struct ExIoError(std::io::Error);

#[verifier::external_type_specification]
#[verifier::external_body]
pub struct ExDecompressError(DecompressError);

/// Calls `zstd::stream::encode_all` on `input`. Claimed: the outcome is
/// `zstd_encoded(input, level)`, and decoding a frame it made gives `input`
/// back (the round trip that the crate's documentation shows). What the error
/// holds is left unsaid.
#[verifier::external_body]
fn zstd_encode_all(input: &[u8], level: i32) -> (r: Result<Vec<u8>, std::io::Error>)
    ensures
        match r {
            Ok(v) => zstd_encoded(input@, level) == Some(v@) && zstd_decoded(v@) == Some(input@),
            Err(_) => zstd_encoded(input@, level) is None,
        },
{
    zstd::stream::encode_all(std::io::Cursor::new(input), level)
}

/// Calls `zstd::stream::decode_all` on `input`. Claimed: the outcome is
/// `zstd_decoded(input)`. What the error holds is left unsaid.
#[verifier::external_body]
fn zstd_decode_all(input: &[u8]) -> (r: Result<Vec<u8>, std::io::Error>)
    ensures
        match r {
            Ok(v) => zstd_decoded(input@) == Some(v@),
            Err(_) => zstd_decoded(input@) is None,
        },
{
    zstd::stream::decode_all(std::io::Cursor::new(input))
}

/// Calls `lz4_flex::block::compress`, which cannot fail. Claimed: unpacking
/// its result with room for at least `input.len()` bytes gives `input` back
/// (the block round trip that the crate documents). Which bytes it makes is
/// left unsaid: its match finder hashes differently by pointer width and
/// byte order, so they depend on the machine.
#[verifier::external_body]
fn lz4_compress(input: &[u8]) -> (r: Vec<u8>)
    ensures
        forall|capacity: usize|
            capacity >= input@.len() ==> #[trigger] lz4_decoded(r@, capacity) == Some(input@),
{
    lz4_flex::block::compress(input)
}

/// Calls `lz4_flex::block::decompress` with room for `capacity` bytes.
/// Claimed: the outcome is `lz4_decoded(input, capacity)`, and what it
/// unpacks is at most `capacity` bytes long (it truncates a buffer of that
/// size). With the crate's default `safe-decode` and `checked-decode`
/// features, a payload that needs more room is an error, not a panic.
#[verifier::external_body]
fn lz4_decompress(input: &[u8], capacity: usize) -> (r: Result<Vec<u8>, DecompressError>)
    ensures
        match r {
            Ok(v) => lz4_decoded(input@, capacity) == Some(v@) && v@.len() <= capacity,
            Err(_) => lz4_decoded(input@, capacity) is None,
        },
{
    lz4_flex::block::decompress(input, capacity)
}

/// Copies a slice into a new vector.
fn copy_bytes(input: &[u8]) -> (r: Vec<u8>)
    ensures
        r@ == input@,
{
    let mut r: Vec<u8> = Vec::with_capacity(input.len());
    let mut i: usize = 0;
    while i < input.len()
        invariant
            i <= input@.len(),
            r@ == input@.take(i as int),
        decreases input@.len() - i,
    {
        r.push(input[i]);
        i = i + 1;
        assert(r@ =~= input@.take(i as int));
    }
    assert(input@.take(input@.len() as int) =~= input@);
    r
}

impl FrameCompression for NoCompression {
    open spec fn spec_kind(&self) -> CompressionKind {
        CompressionKind::Raw
    }

    open spec fn can_pack(&self, raw: Seq<u8>) -> bool {
        true
    }

    open spec fn packs(&self, raw: Seq<u8>, packed: Seq<u8>) -> bool {
        packed == raw
    }

    open spec fn unpacks(&self, packed: Seq<u8>, expected: nat) -> Option<Seq<u8>> {
        if packed.len() == expected {
            Some(packed)
        } else {
            None
        }
    }

    fn kind(&self) -> (k: CompressionKind) {
        CompressionKind::Raw
    }

    fn compress(&self, input: &[u8]) -> (r: Result<Vec<u8>, CodecError>) {
        Ok(copy_bytes(input))
    }

    fn decompress(&self, input: &[u8], expected_size: usize) -> (r: Result<Vec<u8>, CodecError>)
        ensures
            r matches Err(e) ==> e == (CodecError::SizeMismatch {
                got: input@.len() as usize,
                expected: expected_size,
            }),
    {
        if input.len() != expected_size {
            return Err(CodecError::SizeMismatch { got: input.len(), expected: expected_size });
        }
        Ok(copy_bytes(input))
    }
}

impl ZstdCompression {
    pub fn with_level(level: i32) -> (c: Self)
        ensures
            c.level == level,
    {
        ZstdCompression { level }
    }
}

impl FrameCompression for ZstdCompression {
    open spec fn spec_kind(&self) -> CompressionKind {
        CompressionKind::Zstd
    }

    open spec fn can_pack(&self, raw: Seq<u8>) -> bool {
        zstd_encoded(raw, self.level) is Some
    }

    open spec fn packs(&self, raw: Seq<u8>, packed: Seq<u8>) -> bool {
        zstd_encoded(raw, self.level) == Some(packed)
    }

    open spec fn unpacks(&self, packed: Seq<u8>, expected: nat) -> Option<Seq<u8>> {
        match zstd_decoded(packed) {
            Some(d) => if d.len() == expected {
                Some(d)
            } else {
                None
            },
            None => None,
        }
    }

    fn kind(&self) -> (k: CompressionKind) {
        CompressionKind::Zstd
    }

    fn compress(&self, input: &[u8]) -> (r: Result<Vec<u8>, CodecError>)
        ensures
            r matches Err(e) ==> e is ZstdCompress,
    {
        match zstd_encode_all(input, self.level) {
            Ok(v) => Ok(v),
            Err(e) => Err(CodecError::ZstdCompress(e)),
        }
    }

    fn decompress(&self, input: &[u8], expected_size: usize) -> (r: Result<Vec<u8>, CodecError>)
        ensures
            r matches Err(e) ==> match zstd_decoded(input@) {
                Some(d) => e == (CodecError::SizeMismatch {
                    got: d.len() as usize,
                    expected: expected_size,
                }),
                None => e is ZstdDecompress,
            },
    {
        match zstd_decode_all(input) {
            Ok(decoded) => {
                if decoded.len() != expected_size {
                    return Err(
                        CodecError::SizeMismatch { got: decoded.len(), expected: expected_size },
                    );
                }
                Ok(decoded)
            },
            Err(e) => Err(CodecError::ZstdDecompress(e)),
        }
    }
}

impl FrameCompression for Lz4Compression {
    open spec fn spec_kind(&self) -> CompressionKind {
        CompressionKind::Lz4
    }

    open spec fn can_pack(&self, raw: Seq<u8>) -> bool {
        true
    }

    /// lz4's block output depends on the machine (its match finder hashes by
    /// pointer width), so any payload that unpacks to `raw` may come.
    open spec fn packs(&self, raw: Seq<u8>, packed: Seq<u8>) -> bool {
        lz4_decoded(packed, raw.len() as usize) == Some(raw)
    }

    open spec fn unpacks(&self, packed: Seq<u8>, expected: nat) -> Option<Seq<u8>> {
        if expected <= usize::MAX {
            lz4_decoded(packed, expected as usize)
        } else {
            None
        }
    }

    fn kind(&self) -> (k: CompressionKind) {
        CompressionKind::Lz4
    }

    fn compress(&self, input: &[u8]) -> (r: Result<Vec<u8>, CodecError>) {
        let n = input.len();
        let v = lz4_compress(input);
        assert(lz4_decoded(v@, n) == Some(input@));
        Ok(v)
    }

    fn decompress(&self, input: &[u8], expected_size: usize) -> (r: Result<Vec<u8>, CodecError>)
        ensures
            r matches Err(e) ==> e is Lz4Decompress,
            r matches Ok(v) ==> v@.len() <= expected_size,
    {
        match lz4_decompress(input, expected_size) {
            Ok(v) => Ok(v),
            Err(e) => Err(CodecError::Lz4Decompress(e)),
        }
    }
}

impl FrameCompression for FrameCodec {
    open spec fn spec_kind(&self) -> CompressionKind {
        match self {
            FrameCodec::Raw(c) => c.spec_kind(),
            FrameCodec::Zstd(c) => c.spec_kind(),
            FrameCodec::Lz4(c) => c.spec_kind(),
        }
    }

    open spec fn can_pack(&self, raw: Seq<u8>) -> bool {
        match self {
            FrameCodec::Raw(c) => c.can_pack(raw),
            FrameCodec::Zstd(c) => c.can_pack(raw),
            FrameCodec::Lz4(c) => c.can_pack(raw),
        }
    }

    open spec fn packs(&self, raw: Seq<u8>, packed: Seq<u8>) -> bool {
        match self {
            FrameCodec::Raw(c) => c.packs(raw, packed),
            FrameCodec::Zstd(c) => c.packs(raw, packed),
            FrameCodec::Lz4(c) => c.packs(raw, packed),
        }
    }

    open spec fn unpacks(&self, packed: Seq<u8>, expected: nat) -> Option<Seq<u8>> {
        match self {
            FrameCodec::Raw(c) => c.unpacks(packed, expected),
            FrameCodec::Zstd(c) => c.unpacks(packed, expected),
            FrameCodec::Lz4(c) => c.unpacks(packed, expected),
        }
    }

    fn kind(&self) -> (k: CompressionKind) {
        match self {
            FrameCodec::Raw(c) => c.kind(),
            FrameCodec::Zstd(c) => c.kind(),
            FrameCodec::Lz4(c) => c.kind(),
        }
    }

    fn compress(&self, input: &[u8]) -> (r: Result<Vec<u8>, CodecError>) {
        match self {
            FrameCodec::Raw(c) => c.compress(input),
            FrameCodec::Zstd(c) => c.compress(input),
            FrameCodec::Lz4(c) => c.compress(input),
        }
    }

    fn decompress(&self, input: &[u8], expected_size: usize) -> (r: Result<Vec<u8>, CodecError>) {
        match self {
            FrameCodec::Raw(c) => c.decompress(input, expected_size),
            FrameCodec::Zstd(c) => c.decompress(input, expected_size),
            FrameCodec::Lz4(c) => c.decompress(input, expected_size),
        }
    }
}

/// The codec for `kind`; zstd packs at level 3.
pub fn create_frame_compression(kind: CompressionKind) -> (c: FrameCodec)
    ensures
        c == codec_for(kind),
        c.spec_kind() == kind,
{
    match kind {
        CompressionKind::Raw => FrameCodec::Raw(NoCompression),
        CompressionKind::Zstd => FrameCodec::Zstd(ZstdCompression { level: 3 }),
        CompressionKind::Lz4 => FrameCodec::Lz4(Lz4Compression),
    }
}

/// The codec handed out for a kind is that kind's codec: raw frames pass
/// unchanged; zstd packs at level 3 and unpacks what zstd decodes; lz4 packs
/// into blocks that lz4 unpacks back to the frame and unpacks what lz4
/// decodes; each unpacks only to the announced length.
pub proof fn law_codec_for_kind(k: CompressionKind, raw: Seq<u8>, packed: Seq<u8>, n: nat)
    ensures
        codec_for(k).spec_kind() == k,
        k == CompressionKind::Raw ==> {
            &&& codec_for(k).can_pack(raw)
            &&& (codec_for(k).packs(raw, packed) <==> packed == raw)
            &&& codec_for(k).unpacks(packed, n) == if packed.len() == n {
                Some(packed)
            } else {
                None
            }
        },
        k == CompressionKind::Zstd ==> {
            &&& (codec_for(k).can_pack(raw) <==> zstd_encoded(raw, 3) is Some)
            &&& (codec_for(k).packs(raw, packed) <==> zstd_encoded(raw, 3) == Some(packed))
            &&& codec_for(k).unpacks(packed, n) == match zstd_decoded(packed) {
                Some(d) => if d.len() == n {
                    Some(d)
                } else {
                    None
                },
                None => None,
            }
        },
        k == CompressionKind::Lz4 ==> {
            &&& codec_for(k).can_pack(raw)
            &&& (codec_for(k).packs(raw, packed) <==> lz4_decoded(packed, raw.len() as usize) == Some(
                raw,
            ))
            &&& codec_for(k).unpacks(packed, n) == if n <= usize::MAX {
                lz4_decoded(packed, n as usize)
            } else {
                None
            }
        },
{
}

/// The codec that the compression setting chooses (see `CompressionKind::from_env`).
pub fn create_frame_compression_from_env(raw: Option<&str>) -> (c: FrameCodec)
    ensures
        c == codec_for(kind_of_setting(setting_view(raw))),
{
    create_frame_compression(CompressionKind::from_env(raw))
}

/// The pieces `compress_frames_with_chunk` packs: the bytes of
/// `chunk_size` pixels at a time, the last piece holding what is left.
pub open spec fn pixel_chunks(pixels: Seq<u32>, chunk_size: nat) -> Seq<Seq<u8>>
    decreases pixels.len(),
{
    if pixels.len() == 0 || chunk_size == 0 {
        seq![]
    } else if pixels.len() <= chunk_size {
        seq![le_bytes_of(pixels)]
    } else {
        seq![le_bytes_of(pixels.take(chunk_size as int))] + pixel_chunks(
            pixels.skip(chunk_size as int),
            chunk_size,
        )
    }
}

/// The outcome of packing each of `chunks` with zstd at level 3 and joining
/// the results: `None` where one of them fails.
pub open spec fn zstd_chunks(chunks: Seq<Seq<u8>>) -> Option<Seq<u8>>
    decreases chunks.len(),
{
    if chunks.len() == 0 {
        Some(seq![])
    } else {
        match zstd_encoded(chunks[0], 3) {
            Some(first) => match zstd_chunks(chunks.drop_first()) {
                Some(rest) => Some(first + rest),
                None => None,
            },
            None => None,
        }
    }
}

/// Packs a frame's pixels with zstd at level 3, `chunk_size` pixels at a
/// time, and joins the packed pieces.
pub fn compress_frames_with_chunk(pixels: &[u32], chunk_size: usize) -> (r: Result<Vec<u8>, CodecError>)
    requires
        pixels@.len() > 0 ==> chunk_size > 0,
        4 * chunk_size <= usize::MAX,
    ensures
        r is Ok <==> zstd_chunks(pixel_chunks(pixels@, chunk_size as nat)) is Some,
        r matches Ok(v) ==> zstd_chunks(pixel_chunks(pixels@, chunk_size as nat)) == Some(v@),
    decreases pixels@.len(),
{
    if pixels.len() == 0 {
        return Ok(Vec::new());
    }
    let take = if pixels.len() <= chunk_size {
        pixels.len()
    } else {
        chunk_size
    };
    let piece = pixels_as_le_bytes(&pixels[0..take]);
    proof {
        assert(pixels@.subrange(0, take as int) =~= pixels@.take(take as int));
        if pixels@.len() <= chunk_size {
            assert(pixels@.take(take as int) =~= pixels@);
        }
    }
    let codec = ZstdCompression::with_level(3);
    let first = match codec.compress(piece.as_slice()) {
        Ok(v) => v,
        Err(e) => return Err(e),
    };
    if take == pixels.len() {
        proof {
            let cs = pixel_chunks(pixels@, chunk_size as nat);
            assert(cs == seq![le_bytes_of(pixels@)]);
            assert(cs.drop_first() =~= Seq::<Seq<u8>>::empty());
            assert(zstd_chunks(cs.drop_first()) == Some(Seq::<u8>::empty()));
            assert(first@ + Seq::<u8>::empty() =~= first@);
        }
        return Ok(first);
    }
    let rest = compress_frames_with_chunk(&pixels[take..pixels.len()], chunk_size);
    proof {
        assert(pixels@.subrange(take as int, pixels@.len() as int) =~= pixels@.skip(chunk_size as int));
        assert(pixel_chunks(pixels@, chunk_size as nat).drop_first() =~= pixel_chunks(
            pixels@.skip(chunk_size as int),
            chunk_size as nat,
        ));
    }
    match rest {
        Ok(mut tail) => {
            let mut out = first;
            out.append(&mut tail);
            Ok(out)
        },
        Err(e) => Err(e),
    }
}

/// Packs a frame's pixels, as little-endian bytes, with zstd at level 3.
pub fn compress_frames(pixels: &[u32]) -> (r: Result<Vec<u8>, CodecError>)
    requires
        4 * pixels@.len() <= usize::MAX,
    ensures
        r is Ok <==> zstd_encoded(le_bytes_of(pixels@), 3) is Some,
        r matches Ok(v) ==> zstd_encoded(le_bytes_of(pixels@), 3) == Some(v@),
{
    let raw_frame = pixels_as_le_bytes(pixels);
    ZstdCompression::with_level(3).compress(raw_frame.as_slice())
}

} // verus!
