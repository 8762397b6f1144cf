//! The encoded audio that is broadcast.

use vstd::prelude::*;
use crate::outside;
use crate::outside::write_u64_be;

verus! {

/// A piece of the output of an encoder, for the clients of one mount.
#[derive(Debug)]
pub struct Buffer {
    mount: usize,
    data: BufferData,
}

/// A piece of the output of an encoder.
#[derive(Debug)]
pub enum BufferData {
    Header(Vec<u8>),
    /// Audio, with its presentation time: the bits of an IEEE 754 double.
    Frame { data: Vec<u8>, pts: u64 },
    Trailer(Vec<u8>),
    InlineData(Vec<u8>),
}

/// The contents of a [`BufferData`].
#[verifier::ext_equal]
pub enum Media {
    Header(Seq<u8>),
    Frame { data: Seq<u8>, pts: u64 },
    Trailer(Seq<u8>),
    InlineData(Seq<u8>),
}

impl View for BufferData {
    type V = Media;

    open spec fn view(&self) -> Media {
        match *self {
            BufferData::Header(data) => Media::Header(data@),
            BufferData::Frame { data, pts } => Media::Frame { data: data@, pts },
            BufferData::Trailer(data) => Media::Trailer(data@),
            BufferData::InlineData(data) => Media::InlineData(data@),
        }
    }
}

impl Media {
    /// The encoded bytes.
    pub open spec fn bytes(self) -> Seq<u8> {
        match self {
            Media::Header(data) => data,
            Media::Frame { data, .. } => data,
            Media::Trailer(data) => data,
            Media::InlineData(data) => data,
        }
    }

    /// The number that tells the kinds of packet apart.
    pub open spec fn tag(self) -> u8 {
        match self {
            Media::Header(_) => 1,
            Media::Frame { .. } => 2,
            Media::Trailer(_) => 3,
            Media::InlineData(_) => 255,
        }
    }

    /// What a packet holds behind its length.
    pub open spec fn body(self) -> Seq<u8> {
        match self {
            Media::Frame { data, pts } => outside::be_bytes(pts) + data,
            _ => self.bytes(),
        }
    }

    /// The packet of a WebSocket client: the kind, the length of the body in eight
    /// bytes, the body.
    pub open spec fn packet(self) -> Seq<u8> {
        seq![self.tag()] + outside::be_bytes(self.body().len() as u64) + self.body()
    }
}

/// The number that eight bytes stand for, most significant first.
pub open spec fn from_be_bytes(b: Seq<u8>) -> int {
    b[0] * 0x100_0000_0000_0000 + b[1] * 0x1_0000_0000_0000 + b[2] * 0x100_0000_0000 + b[3]
        * 0x1_0000_0000 + b[4] * 0x100_0000 + b[5] * 0x1_0000 + b[6] * 0x100 + b[7]
}

/// The bytes of a number give the number back.
pub proof fn be_bytes_read_back(n: u64)
    ensures
        outside::be_bytes(n).len() == 8,
        from_be_bytes(outside::be_bytes(n)) == n,
{
    assert(n == (n / 0x100_0000_0000_0000 % 0x100) * 0x100_0000_0000_0000 + (n / 0x1_0000_0000_0000
        % 0x100) * 0x1_0000_0000_0000 + (n / 0x100_0000_0000 % 0x100) * 0x100_0000_0000 + (n
        / 0x1_0000_0000 % 0x100) * 0x1_0000_0000 + (n / 0x100_0000 % 0x100) * 0x100_0000 + (n
        / 0x1_0000 % 0x100) * 0x1_0000 + (n / 0x100 % 0x100) * 0x100 + (n % 0x100))
        by (bit_vector);
}

/// What a receiver reads from the start of `stream`: kind, body, and what follows.
pub open spec fn read_packet(stream: Seq<u8>) -> (u8, Seq<u8>, Seq<u8>) {
    let len = from_be_bytes(stream.subrange(1, 9));
    (stream[0], stream.subrange(9, 9 + len), stream.skip(9 + len))
}

/// A packet ends where its length says, and kind and body are read back from it,
/// whatever follows.
pub proof fn packet_reads_back(m: Media, rest: Seq<u8>)
    requires
        m.body().len() <= u64::MAX,
    ensures
        read_packet(m.packet() + rest) == (m.tag(), m.body(), rest),
{
    let stream = m.packet() + rest;
    let len = m.body().len() as u64;
    be_bytes_read_back(len);
    assert(stream.subrange(1, 9) == outside::be_bytes(len));
    assert(stream.subrange(9, 9 + len) == m.body());
    assert(stream.skip(9 + len) == rest);
}

/// Kind and body tell pieces apart: two pieces with the same packet are the same.
pub proof fn packet_determines_media(a: Media, b: Media)
    requires
        a.packet() == b.packet(),
        a.body().len() <= u64::MAX,
        b.body().len() <= u64::MAX,
    ensures
        a == b,
{
    let none = Seq::<u8>::empty();
    packet_reads_back(a, none);
    packet_reads_back(b, none);
    assert(a.tag() == b.tag() && a.body() == b.body());
    match (a, b) {
        (Media::Frame { data: d, pts: p }, Media::Frame { data: e, pts: q }) => {
            be_bytes_read_back(p);
            be_bytes_read_back(q);
            assert(a.body().take(8) == outside::be_bytes(p));
            assert(b.body().take(8) == outside::be_bytes(q));
            assert(a.body().skip(8) == d);
            assert(b.body().skip(8) == e);
        },
        _ => {},
    }
}

/// A piece has the bytes that the encoder put out, and a frame its presentation time.
pub proof fn contents_are_as_given(d: BufferData)
    ensures
        match d {
            BufferData::Header(data) => d@ == Media::Header(data@) && d@.bytes() == data@,
            BufferData::Frame { data, pts } => {
                d@ == (Media::Frame { data: data@, pts }) && d@.bytes() == data@
            },
            BufferData::Trailer(data) => d@ == Media::Trailer(data@) && d@.bytes() == data@,
            BufferData::InlineData(data) => d@ == Media::InlineData(data@) && d@.bytes() == data@,
        },
{
}

/// A packet is its kind, the number of bytes that follow in eight bytes, and then, for a
/// frame, its presentation time in eight bytes and the encoded bytes, and for any other
/// piece just the encoded bytes.
pub proof fn packet_layout(m: Media)
    requires
        m.bytes().len() + 8 <= u64::MAX,
    ensures
        m.packet().len() >= 9,
        from_be_bytes(m.packet().subrange(1, 9)) == m.packet().len() - 9,
        match m {
            Media::Header(data) => m.packet()[0] == 1 && m.packet().skip(9) == data,
            Media::Frame { data, pts } => {
                &&& m.packet()[0] == 2
                &&& m.packet().len() >= 17
                &&& from_be_bytes(m.packet().subrange(9, 17)) == pts
                &&& m.packet().skip(17) == data
            },
            Media::Trailer(data) => m.packet()[0] == 3 && m.packet().skip(9) == data,
            Media::InlineData(data) => m.packet()[0] == 255 && m.packet().skip(9) == data,
        },
{
    let p = m.packet();
    be_bytes_read_back(m.body().len() as u64);
    assert(p.subrange(1, 9) == outside::be_bytes(m.body().len() as u64));
    match m {
        Media::Frame { data, pts } => {
            be_bytes_read_back(pts);
            assert(p.subrange(9, 17) == outside::be_bytes(pts));
            assert(p.skip(17) == data);
        },
        _ => {
            assert(p.skip(9) == m.bytes());
        },
    }
}

/// The body of a frame's packet is its presentation time in eight bytes and the encoded
/// bytes behind it; that of any other packet is the encoded bytes.
pub proof fn body_layout(m: Media)
    ensures
        match m {
            Media::Frame { data, pts } => {
                &&& m.body().len() == 8 + data.len()
                &&& from_be_bytes(m.body().take(8)) == pts
                &&& m.body().skip(8) == data
            },
            Media::Header(data) => m.body() == data,
            Media::Trailer(data) => m.body() == data,
            Media::InlineData(data) => m.body() == data,
        },
{
    if let Media::Frame { data, pts } = m {
        be_bytes_read_back(pts);
        assert(m.body().take(8) == outside::be_bytes(pts));
        assert(m.body().skip(8) == data);
    }
}

/// The packets of pieces, one behind the other.
pub open spec fn packets(pieces: Seq<Media>) -> Seq<u8>
    decreases pieces.len(),
{
    if pieces.len() == 0 {
        Seq::empty()
    } else {
        packets(pieces.drop_last()) + pieces.last().packet()
    }
}

/// All packets that a receiver reads from `stream`, each a kind and a body.
pub open spec fn read_packets(stream: Seq<u8>) -> Seq<(u8, Seq<u8>)>
    decreases stream.len(),
{
    let (tag, body, rest) = read_packet(stream);
    if stream.len() < 9 || from_be_bytes(stream.subrange(1, 9)) > stream.len() - 9 {
        Seq::empty()
    } else {
        seq![(tag, body)] + read_packets(rest)
    }
}

proof fn lemma_packets_first(pieces: Seq<Media>)
    requires
        pieces.len() > 0,
    ensures
        packets(pieces) == pieces[0].packet() + packets(pieces.drop_first()),
    decreases pieces.len(),
{
    if pieces.len() == 1 {
        assert(pieces.drop_first() == Seq::<Media>::empty());
        reveal_with_fuel(packets, 2);
        assert(packets(pieces) == pieces[0].packet());
    } else {
        let start = pieces.drop_last();
        lemma_packets_first(start);
        assert(start.drop_first() == pieces.drop_first().drop_last());
        assert(packets(pieces) == pieces[0].packet() + (packets(start.drop_first())
            + pieces.last().packet()));
    }
}

/// However many packets follow each other, a receiver reads back the kinds and bodies of
/// all the pieces, in order.
pub proof fn packets_read_back(pieces: Seq<Media>)
    requires
        forall|i: int| 0 <= i < pieces.len() ==> (#[trigger] pieces[i]).body().len() <= u64::MAX,
    ensures
        read_packets(packets(pieces)) == pieces.map_values(|m: Media| (m.tag(), m.body())),
    decreases pieces.len(),
{
    let stream = packets(pieces);
    if pieces.len() > 0 {
        let m = pieces[0];
        let rest = packets(pieces.drop_first());
        lemma_packets_first(pieces);
        packet_reads_back(m, rest);
        be_bytes_read_back(m.body().len() as u64);
        assert(stream.subrange(1, 9) == outside::be_bytes(m.body().len() as u64));
        packets_read_back(pieces.drop_first());
    }
    assert(read_packets(stream) =~= pieces.map_values(|m: Media| (m.tag(), m.body())));
}

impl Clone for BufferData {
    fn clone(&self) -> (r: BufferData)
        ensures
            r@ == self@,
    {
        let data = vstd::slice::slice_to_vec(self.frame());
        match self {
            BufferData::Header(_) => BufferData::Header(data),
            BufferData::Frame { pts, .. } => BufferData::Frame { data, pts: *pts },
            BufferData::Trailer(_) => BufferData::Trailer(data),
            BufferData::InlineData(_) => BufferData::InlineData(data),
        }
    }
}

impl Clone for Buffer {
    fn clone(&self) -> (r: Buffer)
        ensures
            r.mount() == self.mount(),
            r.media() == self.media(),
    {
        Buffer { mount: self.mount, data: self.data.clone() }
    }
}

impl Buffer {
    /// The mount whose clients get the piece.
    pub closed spec fn mount(self) -> usize {
        self.mount
    }

    /// The piece.
    pub closed spec fn media(self) -> Media {
        self.data@
    }

    pub fn new(mount: usize, data: BufferData) -> (r: Buffer)
        ensures
            r.mount() == mount,
            r.media() == data@,
    {
        Buffer { mount, data }
    }

    /// Mount and piece.
    pub fn into_parts(self) -> (r: (usize, BufferData))
        ensures
            r.0 == self.mount(),
            r.1@ == self.media(),
    {
        (self.mount, self.data)
    }
}

impl BufferData {
    pub fn is_data(&self) -> (r: bool)
        ensures
            r == (self@ is Frame),
    {
        match *self {
            BufferData::Frame { .. } => true,
            _ => false,
        }
    }

    pub fn is_header(&self) -> (r: bool)
        ensures
            r == (self@ is Header),
    {
        match *self {
            BufferData::Header(_) => true,
            _ => false,
        }
    }

    pub fn is_inline(&self) -> (r: bool)
        ensures
            r == (self@ is InlineData),
    {
        match *self {
            BufferData::InlineData(_) => true,
            _ => false,
        }
    }

    /// The encoded bytes.
    pub fn frame(&self) -> (r: &[u8])
        ensures
            r@ == self@.bytes(),
    {
        match self {
            BufferData::Header(f) => f.as_slice(),
            BufferData::Frame { data: f, .. } => f.as_slice(),
            BufferData::Trailer(f) => f.as_slice(),
            BufferData::InlineData(f) => f.as_slice(),
        }
    }

    /// The packet of a WebSocket client.
    pub fn packet(&self) -> (r: Vec<u8>)
        ensures
            r@ == self@.packet(),
    {
        let mut d: Vec<u8> = Vec::new();
        match self {
            BufferData::Header(data) => {
                d.push(1);
                write_u64_be(&mut d, data.len() as u64);
            },
            BufferData::Frame { data, pts } => {
                d.push(2);
                write_u64_be(&mut d, (data.len() as u128 + 8) as u64);
                write_u64_be(&mut d, *pts);
            },
            BufferData::Trailer(data) => {
                d.push(3);
                write_u64_be(&mut d, data.len() as u64);
            },
            BufferData::InlineData(data) => {
                d.push(255);
                write_u64_be(&mut d, data.len() as u64);
            },
        }
        d.extend_from_slice(self.frame());
        assert(d@ == self@.packet());
        d
    }
}

} // verus!
