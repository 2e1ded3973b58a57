use vstd::prelude::*;
use vstd::string::StringExecFns;

use crate::bytes::{
    le16, le32, le32_at, lemma_le32_roundtrip, lemma_word_roundtrip, lemma_word_value_roundtrip, native_byte_order,
    push_le32, push_word, read_le32, read_word, word_at, word_bytes, ByteOrder,
};
use crate::compression::CompressionKind;
use crate::text::{chars_of, matches_ignoring_case, names_word, setting_view, trim_bounds};

verus! {

/// The byte a viewer sends to ask the server for the next frame.
pub const FRAME_REQUEST: u8 = 0x88;

/// The four bytes every frame header starts with.
pub const FRAME_MAGIC: [u8; 4] = [0x33, 0x34, 0x35, 0x36];

/// The length of a frame header datagram.
pub const FRAME_HEADER_LEN: usize = 28;

/// The length of the frame header on a stream connection, which has no frame rate.
pub const TCP_FRAME_HEADER_LEN: usize = 24;

/// The longest chunk a stream connection carries in one length-prefixed piece.
pub const MAX_CHUNK_LEN: usize = 65535;

/// The most payload bytes one datagram carries after its chunk index.
pub const MAX_PACKET_SIZE: usize = 1400;

pub open spec fn magic_seq() -> Seq<u8> {
    seq![0x33u8, 0x34u8, 0x35u8, 0x36u8]
}

/// How frames travel between server and viewer.
#[derive(Clone, Copy, Debug, PartialEq, Eq, Structural)]
pub enum TransportMode {
    Tcp,
    Udp,
    Both,
}

/// The transport that a setting value names, if any: `tcp`, `udp` or `both`,
/// ignoring surrounding white space and the case of ASCII letters.
pub open spec fn transport_named(s: Seq<char>) -> Option<TransportMode> {
    if names_word(s, seq!['t', 'c', 'p']) {
        Some(TransportMode::Tcp)
    } else if names_word(s, seq!['u', 'd', 'p']) {
        Some(TransportMode::Udp)
    } else if names_word(s, seq!['b', 'o', 't', 'h']) {
        Some(TransportMode::Both)
    } else {
        None
    }
}

/// The transport that the transport setting chooses; `raw` is the setting's
/// value when the environment sets it. An unset setting means UDP; a value
/// that names no transport means TCP.
pub open spec fn transport_of_setting(raw: Option<Seq<char>>) -> TransportMode {
    match raw {
        Some(s) => match transport_named(s) {
            Some(named) => named,
            None => TransportMode::Tcp,
        },
        None => TransportMode::Udp,
    }
}

impl TransportMode {
    /// The transport that the transport setting chooses (see `transport_of_setting`).
    pub fn from_env(raw: Option<&str>) -> (m: Self)
        ensures
            m == transport_of_setting(setting_view(raw)),
    {
        match raw {
            Some(s) => match Self::from_str(s) {
                Some(m) => m,
                None => TransportMode::Tcp,
            },
            None => TransportMode::Udp,
        }
    }

    /// The transport that `raw` names, if any (see `transport_named`).
    pub fn from_str(raw: &str) -> (m: Option<Self>)
        ensures
            m == transport_named(raw@),
    {
        let chars = chars_of(raw);
        let (start, end) = trim_bounds(chars.as_slice());
        let tcp_word = ['t', 'c', 'p'];
        let udp_word = ['u', 'd', 'p'];
        let both_word = ['b', 'o', 't', 'h'];
        proof {
            assert(tcp_word@ =~= seq!['t', 'c', 'p']);
            assert(udp_word@ =~= seq!['u', 'd', 'p']);
            assert(both_word@ =~= seq!['b', 'o', 't', 'h']);
        }
        if matches_ignoring_case(chars.as_slice(), start, end, &tcp_word) {
            Some(TransportMode::Tcp)
        } else if matches_ignoring_case(chars.as_slice(), start, end, &udp_word) {
            Some(TransportMode::Udp)
        } else if matches_ignoring_case(chars.as_slice(), start, end, &both_word) {
            Some(TransportMode::Both)
        } else {
            None
        }
    }
}

/// The viewer's side of a connection to the server.
pub trait ClientConnection {
    /// Asks the server for the next frame.
    fn request_frame(&mut self) -> Result<(), std::io::Error>;

    /// Reads the header that announces the next frame.
    fn read_frame_header(&mut self) -> Result<FrameHeader, std::io::Error>;

    /// Reads one piece of the frame's payload into `buffer`; returns its length.
    fn read_chunk(&mut self, buffer: &mut [u8]) -> Result<usize, std::io::Error>;
}

/// The server's side of a connection to a viewer.
pub trait ServerConnection {
    /// Waits until the viewer asks for a frame.
    fn wait_for_frame_request(&mut self) -> Result<(), std::io::Error>;

    /// Announces a frame.
    fn send_frame_header(
        &mut self,
        w: u32,
        h: u32,
        pixel_count: u32,
        payload_len: u32,
        compression: CompressionKind,
        server_fps: u32,
    ) -> Result<(), std::io::Error>;

    /// Sends one piece of the frame's payload.
    fn send_chunk(&mut self, chunk: &[u8]) -> Result<(), std::io::Error>;

    /// How the viewer is named in messages.
    fn peer_label(&self) -> String;
}

/// How a viewer is named in messages: its address where it is known.
pub fn peer_label(peer: Option<&str>) -> (s: String)
    ensures
        s@ == (match peer {
            Some(addr) => addr@,
            None => "unknown-peer"@,
        }),
{
    match peer {
        Some(addr) => String::from_str(addr),
        None => String::from_str("unknown-peer"),
    }
}

/// What announces a frame: its geometry, its raw and packed sizes, its codec
/// and the rate at which the server sends frames.
#[derive(Clone, Copy, Debug, PartialEq, Eq)]
pub struct FrameHeader {
    pub magic: [u8; 4],
    pub width: u32,
    pub height: u32,
    pub pixel_count: u32,
    pub payload_len: u32,
    pub compression: u32,
    pub server_fps: u32,
}

impl FrameHeader {
    /// The header's bytes on the wire: the magic, then each field in byte
    /// order `order`, in the order the fields are declared.
    pub open spec fn encoded_in(self, order: ByteOrder) -> Seq<u8> {
        self.magic@ + word_bytes(order, self.width) + word_bytes(order, self.height) + word_bytes(
            order,
            self.pixel_count,
        ) + word_bytes(order, self.payload_len) + word_bytes(order, self.compression) + word_bytes(
            order,
            self.server_fps,
        )
    }

    /// The fields after the magic that the first 28 bytes of `b` hold in byte order `order`.
    pub open spec fn fields_in(order: ByteOrder, b: Seq<u8>) -> (u32, u32, u32, u32, u32, u32) {
        (
            word_at(order, b, 4),
            word_at(order, b, 8),
            word_at(order, b, 12),
            word_at(order, b, 16),
            word_at(order, b, 20),
            word_at(order, b, 24),
        )
    }

    /// Whether `self` is the header that the first 28 bytes of `b` hold in byte order `order`.
    pub open spec fn is_decoding_in(self, order: ByteOrder, b: Seq<u8>) -> bool {
        &&& self.magic@ == b.take(4)
        &&& (self.width, self.height, self.pixel_count, self.payload_len, self.compression, self.server_fps)
            == Self::fields_in(order, b)
    }

    /// The header that a server sends for a frame.
    pub fn for_frame(
        width: u32,
        height: u32,
        pixel_count: u32,
        payload_len: u32,
        compression: CompressionKind,
        server_fps: u32,
    ) -> (h: FrameHeader)
        ensures
            h.magic@ == magic_seq(),
            h.width == width,
            h.height == height,
            h.pixel_count == pixel_count,
            h.payload_len == payload_len,
            h.compression == compression.spec_id(),
            h.server_fps == server_fps,
    {
        let h = FrameHeader {
            magic: FRAME_MAGIC,
            width,
            height,
            pixel_count,
            payload_len,
            compression: compression.id(),
            server_fps,
        };
        assert(h.magic@ =~= magic_seq());
        h
    }

    /// The header's 28 bytes with its fields in byte order `order`.
    pub fn to_bytes_in(&self, order: ByteOrder) -> (b: Vec<u8>)
        ensures
            b@ == self.encoded_in(order),
            b@.len() == FRAME_HEADER_LEN,
    {
        let mut b: Vec<u8> = Vec::with_capacity(FRAME_HEADER_LEN);
        b.push(self.magic[0]);
        b.push(self.magic[1]);
        b.push(self.magic[2]);
        b.push(self.magic[3]);
        assert(b@ =~= self.magic@);
        push_word(&mut b, order, self.width);
        push_word(&mut b, order, self.height);
        push_word(&mut b, order, self.pixel_count);
        push_word(&mut b, order, self.payload_len);
        push_word(&mut b, order, self.compression);
        push_word(&mut b, order, self.server_fps);
        b
    }

    /// The header's 28 bytes on the wire: its memory layout, with the fields
    /// in the byte order of the machine (which of the two orders that is, is
    /// the machine's).
    pub fn to_bytes(&self) -> (b: Vec<u8>)
        ensures
            b@ == self.encoded_in(ByteOrder::Little) || b@ == self.encoded_in(ByteOrder::Big),
            b@.len() == FRAME_HEADER_LEN,
    {
        self.to_bytes_in(native_byte_order())
    }

    /// The header held by the first 28 bytes of `b`, its fields in byte order `order`.
    pub fn decode_in(b: &[u8], order: ByteOrder) -> (h: FrameHeader)
        requires
            b@.len() >= FRAME_HEADER_LEN,
        ensures
            h.is_decoding_in(order, b@),
    {
        let h = FrameHeader {
            magic: [b[0], b[1], b[2], b[3]],
            width: read_word(b, 4, order),
            height: read_word(b, 8, order),
            pixel_count: read_word(b, 12, order),
            payload_len: read_word(b, 16, order),
            compression: read_word(b, 20, order),
            server_fps: read_word(b, 24, order),
        };
        assert(h.magic@ =~= b@.take(4));
        h
    }
}

/// Why a datagram is not a frame header.
#[derive(Clone, Copy, Debug, PartialEq, Eq, Structural)]
pub enum HeaderError {
    /// Fewer than 28 bytes came.
    Short { got: usize },
    /// The datagram does not start with the magic.
    BadMagic,
}

/// Reads the frame header in a received datagram (`packet` holds the bytes
/// that came, at most the first 28 of the datagram are looked at), its fields
/// in byte order `order`.
pub fn parse_frame_header_in(packet: &[u8], order: ByteOrder) -> (r: Result<FrameHeader, HeaderError>)
    ensures
        packet@.len() < FRAME_HEADER_LEN ==> r == Err::<FrameHeader, HeaderError>(
            HeaderError::Short { got: packet@.len() as usize },
        ),
        packet@.len() >= FRAME_HEADER_LEN && packet@.take(4) != magic_seq() ==> r == Err::<
            FrameHeader,
            HeaderError,
        >(HeaderError::BadMagic),
        packet@.len() >= FRAME_HEADER_LEN && packet@.take(4) == magic_seq() ==> (r matches Ok(h)
            && h.is_decoding_in(order, packet@)),
{
    if packet.len() < FRAME_HEADER_LEN {
        return Err(HeaderError::Short { got: packet.len() });
    }
    if !(packet[0] == 0x33 && packet[1] == 0x34 && packet[2] == 0x35 && packet[3] == 0x36) {
        proof {
            if packet@.take(4) == magic_seq() {
                assert(packet@.take(4)[0] == packet@[0]);
                assert(packet@.take(4)[1] == packet@[1]);
                assert(packet@.take(4)[2] == packet@[2]);
                assert(packet@.take(4)[3] == packet@[3]);
            }
        }
        return Err(HeaderError::BadMagic);
    }
    assert(packet@.take(4) =~= magic_seq());
    Ok(FrameHeader::decode_in(packet, order))
}

/// Reads the frame header in a received datagram as the machine lays it out:
/// the fields in the machine's byte order (see `parse_frame_header_in`).
pub fn parse_frame_header(packet: &[u8]) -> (r: Result<FrameHeader, HeaderError>)
    ensures
        packet@.len() < FRAME_HEADER_LEN ==> r == Err::<FrameHeader, HeaderError>(
            HeaderError::Short { got: packet@.len() as usize },
        ),
        packet@.len() >= FRAME_HEADER_LEN && packet@.take(4) != magic_seq() ==> r == Err::<
            FrameHeader,
            HeaderError,
        >(HeaderError::BadMagic),
        packet@.len() >= FRAME_HEADER_LEN && packet@.take(4) == magic_seq() ==> (r matches Ok(h)
            && (h.is_decoding_in(ByteOrder::Little, packet@) || h.is_decoding_in(
            ByteOrder::Big,
            packet@,
        ))),
{
    parse_frame_header_in(packet, native_byte_order())
}

/// Decoding the bytes of a header, in the byte order they were written in,
/// gives the header back.
pub proof fn law_header_roundtrip(h: FrameHeader, order: ByteOrder)
    ensures
        h.encoded_in(order).len() == FRAME_HEADER_LEN,
        h.is_decoding_in(order, h.encoded_in(order)),
{
    let b = h.encoded_in(order);
    assert(b.take(4) =~= h.magic@);
    lemma_word_roundtrip(order, h.width);
    lemma_word_roundtrip(order, h.height);
    lemma_word_roundtrip(order, h.pixel_count);
    lemma_word_roundtrip(order, h.payload_len);
    lemma_word_roundtrip(order, h.compression);
    lemma_word_roundtrip(order, h.server_fps);
    assert(b.subrange(4, 8) =~= word_bytes(order, h.width));
    assert(b.subrange(8, 12) =~= word_bytes(order, h.height));
    assert(b.subrange(12, 16) =~= word_bytes(order, h.pixel_count));
    assert(b.subrange(16, 20) =~= word_bytes(order, h.payload_len));
    assert(b.subrange(20, 24) =~= word_bytes(order, h.compression));
    assert(b.subrange(24, 28) =~= word_bytes(order, h.server_fps));
    assert(word_at(order, b, 4) == word_at(order, b.subrange(4, 8), 0));
    assert(word_at(order, b, 8) == word_at(order, b.subrange(8, 12), 0));
    assert(word_at(order, b, 12) == word_at(order, b.subrange(12, 16), 0));
    assert(word_at(order, b, 16) == word_at(order, b.subrange(16, 20), 0));
    assert(word_at(order, b, 20) == word_at(order, b.subrange(20, 24), 0));
    assert(word_at(order, b, 24) == word_at(order, b.subrange(24, 28), 0));
}

/// A header read from bytes in one byte order, written again in that order,
/// gives those bytes.
pub proof fn law_header_bytes_roundtrip(h: FrameHeader, order: ByteOrder, b: Seq<u8>)
    requires
        b.len() >= FRAME_HEADER_LEN,
        h.is_decoding_in(order, b),
    ensures
        h.encoded_in(order) == b.take(FRAME_HEADER_LEN as int),
{
    lemma_word_value_roundtrip(order, b, 4);
    lemma_word_value_roundtrip(order, b, 8);
    lemma_word_value_roundtrip(order, b, 12);
    lemma_word_value_roundtrip(order, b, 16);
    lemma_word_value_roundtrip(order, b, 20);
    lemma_word_value_roundtrip(order, b, 24);
    assert(h.encoded_in(order) =~= b.take(FRAME_HEADER_LEN as int));
}

/// A header read, in one byte order, from the bytes of a header written in
/// that order is that header.
pub proof fn law_header_decodes_to_itself(h: FrameHeader, order: ByteOrder, h2: FrameHeader)
    requires
        h2.is_decoding_in(order, h.encoded_in(order)),
    ensures
        h2 == h,
{
    law_header_roundtrip(h, order);
    assert(h2.magic@ == h.magic@);
    assert(h2.magic =~= h.magic);
}

/// The 24 bytes a stream connection sends to announce a frame: the magic,
/// then width, height, pixel count, payload length and codec number, each
/// little-endian. The server's frame rate is not part of it.
pub open spec fn tcp_header_bytes(
    width: u32,
    height: u32,
    pixel_count: u32,
    payload_len: u32,
    compression: CompressionKind,
) -> Seq<u8> {
    magic_seq() + le32(width) + le32(height) + le32(pixel_count) + le32(payload_len) + le32(
        compression.spec_id(),
    )
}

/// The frame header as a stream connection sends it.
pub fn tcp_frame_header(
    width: u32,
    height: u32,
    pixel_count: u32,
    payload_len: u32,
    compression: CompressionKind,
) -> (b: Vec<u8>)
    ensures
        b@ == tcp_header_bytes(width, height, pixel_count, payload_len, compression),
        b@.len() == TCP_FRAME_HEADER_LEN,
{
    let mut b: Vec<u8> = Vec::with_capacity(TCP_FRAME_HEADER_LEN);
    b.push(0x33);
    b.push(0x34);
    b.push(0x35);
    b.push(0x36);
    assert(b@ =~= magic_seq());
    push_le32(&mut b, width);
    push_le32(&mut b, height);
    push_le32(&mut b, pixel_count);
    push_le32(&mut b, payload_len);
    push_le32(&mut b, compression.id());
    b
}

/// The stream header is the datagram header written little-endian, cut
/// before its frame rate: its 24 bytes are the first 24 of the datagram
/// header with the same fields, whatever the frame rate.
pub proof fn law_tcp_header_is_datagram_prefix(h: FrameHeader, k: CompressionKind)
    requires
        h.magic@ == magic_seq(),
        h.compression == k.spec_id(),
    ensures
        tcp_header_bytes(h.width, h.height, h.pixel_count, h.payload_len, k) == h.encoded_in(
            ByteOrder::Little,
        ).take(TCP_FRAME_HEADER_LEN as int),
{
    assert(tcp_header_bytes(h.width, h.height, h.pixel_count, h.payload_len, k) =~= h.encoded_in(
        ByteOrder::Little,
    ).take(TCP_FRAME_HEADER_LEN as int));
}

/// Each field of a stream header reads back, little-endian at its offset, as
/// the value it was written from: the magic, then width at 4, height at 8,
/// pixel count at 12, payload length at 16 and the codec's number at 20.
pub proof fn law_tcp_header_fields(
    width: u32,
    height: u32,
    pixel_count: u32,
    payload_len: u32,
    compression: CompressionKind,
)
    ensures
        ({
            let b = tcp_header_bytes(width, height, pixel_count, payload_len, compression);
            &&& b.len() == TCP_FRAME_HEADER_LEN
            &&& b.take(4) == magic_seq()
            &&& le32_at(b, 4) == width
            &&& le32_at(b, 8) == height
            &&& le32_at(b, 12) == pixel_count
            &&& le32_at(b, 16) == payload_len
            &&& le32_at(b, 20) == compression.spec_id()
        }),
{
    let b = tcp_header_bytes(width, height, pixel_count, payload_len, compression);
    assert(b.take(4) =~= magic_seq());
    lemma_le32_roundtrip(width);
    lemma_le32_roundtrip(height);
    lemma_le32_roundtrip(pixel_count);
    lemma_le32_roundtrip(payload_len);
    lemma_le32_roundtrip(compression.spec_id());
    assert(b.subrange(4, 8) =~= le32(width));
    assert(b.subrange(8, 12) =~= le32(height));
    assert(b.subrange(12, 16) =~= le32(pixel_count));
    assert(b.subrange(16, 20) =~= le32(payload_len));
    assert(b.subrange(20, 24) =~= le32(compression.spec_id()));
}

/// A stream connection got something other than a frame request.
#[derive(Clone, Copy, Debug, PartialEq, Eq, Structural)]
pub enum RequestError {
    InvalidMarker { got: u8 },
}

/// Checks the byte that a stream connection read while waiting for a request.
pub fn check_frame_request(marker: u8) -> (r: Result<(), RequestError>)
    ensures
        r == (if marker == FRAME_REQUEST {
            Ok::<(), RequestError>(())
        } else {
            Err(RequestError::InvalidMarker { got: marker })
        }),
{
    if marker != FRAME_REQUEST {
        return Err(RequestError::InvalidMarker { got: marker });
    }
    Ok(())
}

/// Whether a datagram is a frame request: exactly one byte, the request marker.
/// The server ignores any other datagram while it waits.
pub fn is_frame_request(datagram: &[u8]) -> (b: bool)
    ensures
        b == (datagram@.len() == 1 && datagram@[0] == FRAME_REQUEST),
{
    datagram.len() == 1 && datagram[0] == FRAME_REQUEST
}

/// A chunk too long for the two-byte length prefix of a stream connection.
#[derive(Clone, Copy, Debug, PartialEq, Eq, Structural)]
pub enum ChunkError {
    TooLarge { len: usize },
}

/// A chunk as a stream connection sends it: its length as two little-endian
/// bytes, then the chunk.
pub fn tcp_chunk(chunk: &[u8]) -> (r: Result<Vec<u8>, ChunkError>)
    ensures
        chunk@.len() > MAX_CHUNK_LEN ==> r == Err::<Vec<u8>, ChunkError>(
            ChunkError::TooLarge { len: chunk@.len() as usize },
        ),
        chunk@.len() <= MAX_CHUNK_LEN ==> (r matches Ok(v) && v@ == le16(chunk@.len() as u16)
            + chunk@),
{
    if chunk.len() > MAX_CHUNK_LEN {
        return Err(ChunkError::TooLarge { len: chunk.len() });
    }
    let len = chunk.len() as u16;
    let mut buf: Vec<u8> = Vec::with_capacity(2 + chunk.len());
    buf.push((len & 0xFF) as u8);
    buf.push(((len >> 8) & 0xFF) as u8);
    let mut i: usize = 0;
    while i < chunk.len()
        invariant
            i <= chunk@.len(),
            buf@ == le16(len) + chunk@.take(i as int),
        decreases chunk@.len() - i,
    {
        buf.push(chunk[i]);
        i = i + 1;
        assert(buf@ =~= le16(len) + chunk@.take(i as int));
    }
    assert(chunk@.take(chunk@.len() as int) =~= chunk@);
    Ok(buf)
}

/// The number of datagrams a payload of `n` bytes is sent in.
pub open spec fn packet_count(n: nat) -> nat {
    ((n + 1399) / 1400) as nat
}

/// The `i`-th piece of a payload: bytes `1400 i` up to `1400 (i + 1)`, or to the end.
pub open spec fn packet_piece(data: Seq<u8>, i: int) -> Seq<u8> {
    let start = i * 1400;
    let end = if (i + 1) * 1400 <= data.len() {
        (i + 1) * 1400
    } else {
        data.len() as int
    };
    data.subrange(start, end)
}

/// The datagrams a payload is sent in: each is its piece's index as four
/// little-endian bytes, then the piece.
pub open spec fn packets_of(data: Seq<u8>) -> Seq<Seq<u8>> {
    Seq::new(packet_count(data.len()), |i: int| le32(i as u32) + packet_piece(data, i))
}

/// A datagram carrying piece `index` of a payload.
pub fn chunk_packet(index: usize, chunk: &[u8]) -> (p: Vec<u8>)
    ensures
        p@ == le32(index as u32) + chunk@,
{
    let mut p: Vec<u8> = Vec::new();
    push_le32(&mut p, #[verifier::truncate] (index as u32));
    let ghost head = p@;
    let mut i: usize = 0;
    while i < chunk.len()
        invariant
            i <= chunk@.len(),
            head == le32(index as u32),
            p@ == head + chunk@.take(i as int),
        decreases chunk@.len() - i,
    {
        p.push(chunk[i]);
        i = i + 1;
        assert(p@ =~= head + chunk@.take(i as int));
    }
    assert(chunk@.take(chunk@.len() as int) =~= chunk@);
    p
}

/// Splits a payload into the datagrams it is sent in.
pub fn frame_packets(data: &[u8]) -> (ps: Vec<Vec<u8>>)
    ensures
        ps@.len() == packets_of(data@).len(),
        forall|i: int| 0 <= i < ps@.len() ==> #[trigger] ps@[i]@ == packets_of(data@)[i],
{
    let n = data.len();
    let count = n / MAX_PACKET_SIZE + if n % MAX_PACKET_SIZE != 0 {
        1
    } else {
        0
    };
    assert(count == packet_count(n as nat));
    let mut ps: Vec<Vec<u8>> = Vec::new();
    let mut i: usize = 0;
    while i < count
        invariant
            n == data@.len(),
            count == packet_count(n as nat),
            i <= count,
            ps@.len() == i,
            forall|k: int| 0 <= k < i ==> #[trigger] ps@[k]@ == packets_of(data@)[k],
        decreases count - i,
    {
        let start = i * MAX_PACKET_SIZE;
        let end = if n - start >= MAX_PACKET_SIZE {
            start + MAX_PACKET_SIZE
        } else {
            n
        };
        let p = chunk_packet(i, &data[start..end]);
        assert(p@ == packets_of(data@)[i as int]);
        ps.push(p);
        i = i + 1;
    }
    ps
}

/// What a viewer makes of one received datagram of a payload: a datagram of
/// more than four bytes carries piece `index` (its first four bytes,
/// little-endian), which lands at offset `1400 index` of the frame buffer if it
/// fits there; the count is the number of payload bytes that landed.
pub open spec fn place(buf: Seq<u8>, packet: Seq<u8>) -> (Seq<u8>, nat) {
    if packet.len() > 4 {
        let start = le32_at(packet, 0) as int * 1400;
        let piece = packet.skip(4);
        if start + piece.len() <= buf.len() {
            (buf.take(start) + piece + buf.skip(start + piece.len()), piece.len())
        } else {
            (buf, 0)
        }
    } else {
        (buf, 0)
    }
}

/// The frame buffer and byte count after the datagrams `packets` arrived in order.
pub open spec fn assemble(buf: Seq<u8>, packets: Seq<Seq<u8>>) -> (Seq<u8>, nat)
    decreases packets.len(),
{
    if packets.len() == 0 {
        (buf, 0)
    } else {
        let (b, n) = assemble(buf, packets.drop_last());
        let (b2, m) = place(b, packets.last());
        (b2, n + m)
    }
}

/// `buf` brought to `len` bytes: cut to its first `len`, or grown with zero bytes.
pub open spec fn resized_to(buf: Seq<u8>, len: nat) -> Seq<u8> {
    if len <= buf.len() {
        buf.take(len as int)
    } else {
        buf + Seq::new((len - buf.len()) as nat, |i: int| 0u8)
    }
}

/// A viewer's start of a frame whose payload has `payload_len` bytes: a
/// buffer of another length is resized to it (new bytes zero). Returns whether
/// it was.
pub fn begin_frame(frame: &mut Vec<u8>, payload_len: usize) -> (resized: bool)
    ensures
        resized == (old(frame)@.len() != payload_len),
        final(frame)@ == (if resized {
            resized_to(old(frame)@, payload_len as nat)
        } else {
            old(frame)@
        }),
{
    if frame.len() != payload_len {
        let ghost before = frame@;
        frame.resize(payload_len, 0u8);
        proof {
            if payload_len > before.len() {
                assert forall|i: int| before.len() <= i < payload_len implies frame@[i] == 0u8 by {
                    assert(cloned::<u8>(0u8, frame@[i]));
                }
                assert(frame@ =~= resized_to(before, payload_len as nat));
            } else {
                assert(frame@ =~= resized_to(before, payload_len as nat));
            }
        }
        true
    } else {
        false
    }
}

/// Whether the offsets of a received datagram stay within `usize` (what
/// `place_packet` needs to be called on it).
pub fn packet_in_range(packet: &[u8]) -> (b: bool)
    ensures
        b == (packet@.len() > 4 ==> le32_at(packet@, 0) as int * 1400 + packet@.len() - 4 <= usize::MAX),
{
    if packet.len() <= 4 {
        return true;
    }
    let index = read_le32(packet, 0) as usize;
    match index.checked_mul(MAX_PACKET_SIZE) {
        Some(start) => start.checked_add(packet.len() - 4).is_some(),
        None => false,
    }
}

/// Lands one received datagram in the frame buffer (see `place`) and returns
/// how many payload bytes it brought.
pub fn place_packet(frame: &mut Vec<u8>, packet: &[u8]) -> (n: usize)
    requires
        packet@.len() > 4 ==> le32_at(packet@, 0) as int * 1400 + packet@.len() - 4 <= usize::MAX,
    ensures
        (final(frame)@, n as nat) == place(old(frame)@, packet@),
{
    if packet.len() <= 4 {
        return 0;
    }
    let index = read_le32(packet, 0) as usize;
    let piece_len = packet.len() - 4;
    let start = index * MAX_PACKET_SIZE;
    let end = start + piece_len;
    if end > frame.len() {
        return 0;
    }
    let ghost old_frame = frame@;
    let mut k: usize = 0;
    while k < piece_len
        invariant
            piece_len == packet@.len() - 4,
            packet@.len() <= usize::MAX,
            end == start + piece_len,
            end <= frame@.len(),
            frame@.len() == old_frame.len(),
            k <= piece_len,
            frame@ == old_frame.take(start as int) + packet@.skip(4).take(k as int)
                + old_frame.skip(start + k),
        decreases piece_len - k,
    {
        frame.set(start + k, packet[4 + k]);
        k = k + 1;
        assert(frame@ =~= old_frame.take(start as int) + packet@.skip(4).take(k as int)
            + old_frame.skip(start + k));
    }
    assert(packet@.skip(4).take(piece_len as int) =~= packet@.skip(4));
    piece_len
}

proof fn lemma_assemble_prefix(data: Seq<u8>, zeros: Seq<u8>, k: int)
    requires
        zeros.len() == data.len(),
        data.len() <= 1400 * 0x1_0000_0000,
        0 <= k <= packet_count(data.len()),
    ensures
        ({
            let e = if k * 1400 <= data.len() {
                k * 1400
            } else {
                data.len() as int
            };
            assemble(zeros, packets_of(data).take(k)) == (data.take(e) + zeros.skip(e), e as nat)
        }),
    decreases k,
{
    let ps = packets_of(data);
    if k == 0 {
        assert(ps.take(0) =~= Seq::<Seq<u8>>::empty());
        assert(data.take(0) + zeros.skip(0) =~= zeros);
    } else {
        lemma_assemble_prefix(data, zeros, k - 1);
        assert(ps.take(k).drop_last() =~= ps.take(k - 1));
        let i = k - 1;
        let piece = packet_piece(data, i);
        let packet = ps[i];
        assert(ps.take(k).last() == packet);
        assert(i * 1400 < data.len());
        assert(i < 0x1_0000_0000);
        lemma_le32_roundtrip(i as u32);
        assert(packet.take(4) =~= le32(i as u32));
        assert(le32_at(packet, 0) == i as u32);
        assert(packet.skip(4) =~= piece);
        let e0 = i * 1400;
        let e1 = if k * 1400 <= data.len() {
            k * 1400
        } else {
            data.len() as int
        };
        let b = data.take(e0) + zeros.skip(e0);
        assert(b.take(e0) + piece + b.skip(e0 + piece.len()) =~= data.take(e1) + zeros.skip(e1));
    }
}

/// Landing the datagrams of a payload, in the order they were sent, in a
/// zeroed buffer of the payload's length gives the payload, with all of its
/// bytes counted. (Up to `1400 * 2^32` bytes: past that the four-byte piece
/// indices wrap.)
pub proof fn law_packets_reassemble(data: Seq<u8>)
    requires
        data.len() <= 1400 * 0x1_0000_0000,
    ensures
        assemble(Seq::new(data.len(), |i: int| 0u8), packets_of(data)) == (data, data.len()),
{
    let zeros = Seq::new(data.len(), |i: int| 0u8);
    let count = packet_count(data.len());
    lemma_assemble_prefix(data, zeros, count as int);
    assert(packets_of(data).take(count as int) =~= packets_of(data));
    assert(count * 1400 >= data.len());
    assert(data.take(data.len() as int) + zeros.skip(data.len() as int) =~= data);
}


/// How many payload bytes piece `i` of a payload of `n` bytes holds.
pub open spec fn piece_len(n: nat, i: int) -> int {
    (if (i + 1) * 1400 <= n {
        (i + 1) * 1400
    } else {
        n as int
    }) - i * 1400
}

/// The datagrams of the payload `data`, arriving in the order that `order`
/// gives by their piece indices.
pub open spec fn packets_in_order(data: Seq<u8>, order: Seq<int>) -> Seq<Seq<u8>> {
    Seq::new(order.len(), |k: int| packets_of(data)[order[k]])
}

/// `order` names each piece index of a payload of `n` bytes exactly once.
pub open spec fn is_arrival_order(order: Seq<int>, n: nat) -> bool {
    &&& order.no_duplicates()
    &&& forall|k: int| 0 <= k < order.len() ==> 0 <= #[trigger] order[k] < packet_count(n)
    &&& forall|j: int| 0 <= j < packet_count(n) ==> #[trigger] order.contains(j)
}

/// The bytes that the pieces listed in `s` bring, counted once per listing.
spec fn landed_len(n: nat, s: Seq<int>) -> int
    decreases s.len(),
{
    if s.len() == 0 {
        0
    } else {
        landed_len(n, s.drop_last()) + piece_len(n, s.last())
    }
}

/// The bytes of the pieces below `m` that `s` lists, each counted once.
spec fn listed_len(n: nat, s: Seq<int>, m: int) -> int
    decreases m,
{
    if m <= 0 {
        0
    } else {
        listed_len(n, s, m - 1) + if s.contains(m - 1) {
            piece_len(n, m - 1)
        } else {
            0
        }
    }
}

proof fn lemma_assemble_any_order(data: Seq<u8>, zeros: Seq<u8>, order: Seq<int>, k: int)
    requires
        zeros == Seq::new(data.len(), |i: int| 0u8),
        data.len() <= 1400 * 0x1_0000_0000,
        forall|j: int| 0 <= j < order.len() ==> 0 <= #[trigger] order[j] < packet_count(data.len()),
        0 <= k <= order.len(),
    ensures
        ({
            let (b, c) = assemble(zeros, packets_in_order(data, order).take(k));
            &&& b.len() == data.len()
            &&& forall|p: int|
                0 <= p < data.len() ==> #[trigger] b[p] == if order.take(k).contains(p / 1400) {
                    data[p]
                } else {
                    0u8
                }
            &&& c == landed_len(data.len(), order.take(k))
        }),
    decreases k,
{
    let ps = packets_in_order(data, order);
    if k == 0 {
        assert(ps.take(0) =~= Seq::<Seq<u8>>::empty());
        assert(order.take(0) =~= Seq::<int>::empty());
    } else {
        lemma_assemble_any_order(data, zeros, order, k - 1);
        let (b, c) = assemble(zeros, ps.take(k - 1));
        assert(ps.take(k).drop_last() =~= ps.take(k - 1));
        assert(order.take(k).drop_last() =~= order.take(k - 1));
        let x = order[k - 1];
        assert(order.take(k).last() == x);
        let packet = packets_of(data)[x];
        assert(ps.take(k).last() == packet);
        let piece = packet_piece(data, x);
        assert(x < 0x1_0000_0000);
        lemma_le32_roundtrip(x as u32);
        assert(packet.take(4) =~= le32(x as u32));
        assert(le32_at(packet, 0) == x as u32);
        assert(packet.skip(4) =~= piece);
        let start = x * 1400;
        let end = start + piece.len();
        assert(end <= data.len());
        let b2 = b.take(start) + piece + b.skip(end);
        assert(place(b, packet) == (b2, piece.len()));
        assert forall|p: int| 0 <= p < data.len() implies #[trigger] b2[p] == if order.take(
            k,
        ).contains(p / 1400) {
            data[p]
        } else {
            0u8
        } by {
            let y = p / 1400;
            if order.take(k).contains(y) {
                let w = choose|w: int| 0 <= w < k && #[trigger] order.take(k)[w] == y;
                if w < k - 1 {
                    assert(order.take(k - 1)[w] == y);
                }
            }
            if order.take(k - 1).contains(y) {
                let w = choose|w: int| 0 <= w < k - 1 && #[trigger] order.take(k - 1)[w] == y;
                assert(order.take(k)[w] == y);
            }
            if y == x {
                assert(order.take(k)[k - 1] == y);
            }
            if start <= p < end {
                assert(b2[p] == piece[p - start]);
            } else if p < start {
                assert(b2[p] == b[p]);
            } else {
                assert(b2[p] == b[p]);
            }
        }
    }
}

proof fn lemma_listed_push(n: nat, t: Seq<int>, x: int, m: int)
    requires
        !t.contains(x),
    ensures
        listed_len(n, t.push(x), m) == listed_len(n, t, m) + if 0 <= x < m {
            piece_len(n, x)
        } else {
            0
        },
    decreases m,
{
    if m > 0 {
        lemma_listed_push(n, t, x, m - 1);
        let y = m - 1;
        if t.push(x).contains(y) {
            let w = choose|w: int| 0 <= w < t.len() + 1 && #[trigger] t.push(x)[w] == y;
            if w < t.len() {
                assert(t[w] == y);
            }
        }
        if t.contains(y) {
            let w = choose|w: int| 0 <= w < t.len() && #[trigger] t[w] == y;
            assert(t.push(x)[w] == y);
        }
        if y == x {
            assert(t.push(x)[t.len() as int] == y);
        }
    }
}

proof fn lemma_landed_listed(n: nat, s: Seq<int>, m: int)
    requires
        s.no_duplicates(),
        forall|j: int| 0 <= j < s.len() ==> 0 <= #[trigger] s[j] < m,
    ensures
        landed_len(n, s) == listed_len(n, s, m),
    decreases s.len(),
{
    if s.len() == 0 {
        lemma_listed_empty(n, s, m);
    } else {
        let t = s.drop_last();
        let x = s.last();
        assert(t.push(x) =~= s);
        assert forall|j: int| 0 <= j < t.len() implies 0 <= #[trigger] t[j] < m by {
            assert(t[j] == s[j]);
        }
        assert(t.no_duplicates()) by {
            assert forall|i: int, j: int| 0 <= i < t.len() && 0 <= j < t.len() && i != j implies t[i]
                != t[j] by {
                assert(t[i] == s[i] && t[j] == s[j]);
            }
        }
        if t.contains(x) {
            let w = choose|w: int| 0 <= w < t.len() && #[trigger] t[w] == x;
            assert(s[w] == s[s.len() - 1]);
        }
        lemma_landed_listed(n, t, m);
        lemma_listed_push(n, t, x, m);
    }
}

proof fn lemma_listed_empty(n: nat, s: Seq<int>, m: int)
    requires
        s.len() == 0,
    ensures
        listed_len(n, s, m) == 0,
    decreases m,
{
    if m > 0 {
        lemma_listed_empty(n, s, m - 1);
    }
}

proof fn lemma_listed_full(n: nat, s: Seq<int>, m: int)
    requires
        0 <= m <= packet_count(n),
        forall|j: int| 0 <= j < m ==> #[trigger] s.contains(j),
    ensures
        listed_len(n, s, m) == if m * 1400 <= n {
            m * 1400
        } else {
            n as int
        },
    decreases m,
{
    if m > 0 {
        assert forall|j: int| 0 <= j < m - 1 implies #[trigger] s.contains(j) by {
            assert(s.contains(j));
        }
        lemma_listed_full(n, s, m - 1);
        assert(s.contains(m - 1));
        assert((m - 1) * 1400 < n);
    }
}

/// Landing the datagrams of a payload in a zeroed buffer of the payload's
/// length gives the payload, with all of its bytes counted, whatever order they
/// arrive in, as long as each arrives once. (Up to `1400 * 2^32` bytes.)
pub proof fn law_packets_reassemble_in_any_order(data: Seq<u8>, order: Seq<int>)
    requires
        data.len() <= 1400 * 0x1_0000_0000,
        is_arrival_order(order, data.len()),
    ensures
        assemble(Seq::new(data.len(), |i: int| 0u8), packets_in_order(data, order)) == (
            data,
            data.len(),
        ),
{
    let n = data.len();
    let zeros = Seq::new(n, |i: int| 0u8);
    let k = order.len() as int;
    lemma_assemble_any_order(data, zeros, order, k);
    assert(order.take(k) =~= order);
    assert(packets_in_order(data, order).take(k) =~= packets_in_order(data, order));
    let (b, c) = assemble(zeros, packets_in_order(data, order));
    assert forall|p: int| 0 <= p < n implies #[trigger] b[p] == data[p] by {
        assert(0 <= p / 1400 < packet_count(n));
        assert(order.contains(p / 1400));
    }
    assert(b =~= data);
    let count = packet_count(n) as int;
    lemma_landed_listed(n, order, count);
    lemma_listed_full(n, order, count);
}

} // verus!
