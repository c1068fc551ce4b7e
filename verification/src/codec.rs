//! Wire codec for frames.
//!
//! The on-wire encoding is self-delimiting: a message type byte, a field
//! count byte, the timestamp as eight little-endian bytes, then each data
//! field as eight little-endian bytes. A byte stream holding any number of
//! concatenated frames plus a trailing partial frame decodes into the
//! complete frames while the partial remainder is kept for the next attempt.

use vstd::bytes::lemma_auto_spec_u64_to_from_le_bytes;
use vstd::bytes::spec_u64_from_le_bytes;
use vstd::bytes::spec_u64_to_le_bytes;
use vstd::bytes::u64_from_le_bytes;
use vstd::bytes::u64_to_le_bytes;
use vstd::prelude::*;
use vstd::slice::slice_subrange;

use crate::frame::spec_field_count;
use crate::frame::valid_type;
use crate::frame::Frame;
use crate::frame::FrameView;
use crate::frame::TYPE_COUNT;

verus! {

/// Bytes of the fixed frame header: type byte, field count byte, timestamp.
pub const HEADER_LEN: usize = 10;

/// Bytes of one encoded data field.
pub const FIELD_LEN: usize = 8;

/// Error reported when the front of a byte stream cannot be a frame under
/// the schema registry: an unknown message type, or a field count that does
/// not match the type's schema. Nothing is discarded silently; the caller
/// decides what to do with the buffered bytes.
#[derive(PartialEq, Eq, Structural, Clone, Copy, Debug)]
pub enum CodecError {
    Malformed,
}

/// Total encoded length of a frame whose field count byte is `nf`.
pub open spec fn frame_len(nf: u8) -> int {
    HEADER_LEN + FIELD_LEN * (nf as int)
}

/// A type byte and field count byte that the schema registry accepts.
pub open spec fn valid_header(t: u8, nf: u8) -> bool {
    valid_type(t) && nf == spec_field_count(t)
}

/// Encoding of the data fields: eight little-endian bytes each, in order.
pub open spec fn fields_bytes(fs: Seq<u64>) -> Seq<u8>
    decreases fs.len(),
{
    if fs.len() == 0 {
        Seq::empty()
    } else {
        spec_u64_to_le_bytes(fs[0]) + fields_bytes(fs.drop_first())
    }
}

/// The on-wire encoding of one frame.
pub open spec fn encoding(f: FrameView) -> Seq<u8> {
    seq![f.msg_type, f.fields.len() as u8] + spec_u64_to_le_bytes(f.timestamp) + fields_bytes(
        f.fields,
    )
}

/// The concatenated encodings of a sequence of frames.
pub open spec fn concat_encodings(fs: Seq<FrameView>) -> Seq<u8>
    decreases fs.len(),
{
    if fs.len() == 0 {
        Seq::empty()
    } else {
        encoding(fs[0]) + concat_encodings(fs.drop_first())
    }
}

/// The fields decoded from `bytes`: `n` little-endian eight-byte groups.
pub open spec fn decode_fields(bytes: Seq<u8>, n: nat) -> Seq<u64> {
    Seq::new(n, |i: int| spec_u64_from_le_bytes(bytes.subrange(8 * i, 8 * i + 8)))
}

/// The frame decoded from the front of `bytes`; meaningful when `bytes`
/// starts with a complete frame.
pub open spec fn decode_frame(bytes: Seq<u8>) -> FrameView
    recommends
        bytes.len() >= 2,
        bytes.len() >= frame_len(bytes[1]),
{
    FrameView {
        msg_type: bytes[0],
        timestamp: spec_u64_from_le_bytes(bytes.subrange(2, 10)),
        fields: decode_fields(bytes.skip(10), bytes[1] as nat),
    }
}

/// Outcome of decoding a byte stream from the front: the complete frames
/// found, the undecoded remainder, and whether the remainder starts with
/// bytes that can never become a frame.
pub struct ParseOut {
    pub frames: Seq<FrameView>,
    pub rest: Seq<u8>,
    pub malformed: bool,
}

/// Decodes as many complete frames as possible from the front of `bytes`.
/// Too few bytes for a header or for the announced length leave the bytes as
/// remainder; a header the schema registry rejects marks the stream
/// malformed, with all bytes from the bad header on kept as remainder.
pub open spec fn parse(bytes: Seq<u8>) -> ParseOut
    decreases bytes.len(),
{
    if bytes.len() < 2 {
        ParseOut { frames: Seq::empty(), rest: bytes, malformed: false }
    } else if !valid_header(bytes[0], bytes[1]) {
        ParseOut { frames: Seq::empty(), rest: bytes, malformed: true }
    } else if bytes.len() < frame_len(bytes[1]) {
        ParseOut { frames: Seq::empty(), rest: bytes, malformed: false }
    } else {
        let tail = parse(bytes.skip(frame_len(bytes[1])));
        ParseOut {
            frames: seq![decode_frame(bytes)] + tail.frames,
            rest: tail.rest,
            malformed: tail.malformed,
        }
    }
}

/// The frame views of a vector of decoded frames.
pub open spec fn views_of(frames: Seq<Frame>) -> Seq<FrameView> {
    frames.map_values(|f: Frame| f@)
}

/// The field encoding is eight bytes per field.
pub proof fn lemma_fields_bytes_len(fs: Seq<u64>)
    ensures
        fields_bytes(fs).len() == 8 * fs.len(),
    decreases fs.len(),
{
    lemma_auto_spec_u64_to_from_le_bytes();
    if fs.len() > 0 {
        lemma_fields_bytes_len(fs.drop_first());
    }
}

/// Appending one field appends its eight bytes.
pub proof fn lemma_fields_bytes_snoc(fs: Seq<u64>, x: u64)
    ensures
        fields_bytes(fs.push(x)) =~= fields_bytes(fs) + spec_u64_to_le_bytes(x),
    decreases fs.len(),
{
    if fs.len() == 0 {
        assert(fs.push(x) =~= seq![x]);
        assert(seq![x].drop_first() =~= Seq::<u64>::empty());
        assert(fields_bytes(seq![x]) == spec_u64_to_le_bytes(x) + fields_bytes(
            seq![x].drop_first(),
        ));
    } else {
        assert(fs.push(x).drop_first() =~= fs.drop_first().push(x));
        assert(fs.push(x)[0] == fs[0]);
        lemma_fields_bytes_snoc(fs.drop_first(), x);
        assert(fields_bytes(fs.push(x)) == spec_u64_to_le_bytes(fs[0]) + fields_bytes(
            fs.drop_first().push(x),
        ));
    }
}

/// Appending one frame to a batch appends its encoding.
pub proof fn lemma_concat_encodings_snoc(fs: Seq<FrameView>, f: FrameView)
    ensures
        concat_encodings(fs.push(f)) =~= concat_encodings(fs) + encoding(f),
    decreases fs.len(),
{
    if fs.len() == 0 {
        assert(fs.push(f) =~= seq![f]);
        assert(seq![f].drop_first() =~= Seq::<FrameView>::empty());
        assert(concat_encodings(seq![f]) == encoding(f) + concat_encodings(
            seq![f].drop_first(),
        ));
    } else {
        assert(fs.push(f).drop_first() =~= fs.drop_first().push(f));
        assert(fs.push(f)[0] == fs[0]);
        lemma_concat_encodings_snoc(fs.drop_first(), f);
        assert(concat_encodings(fs.push(f)) == encoding(fs[0]) + concat_encodings(
            fs.drop_first().push(f),
        ));
    }
}

/// Each field's eight bytes sit at offset `8 * i` of the field encoding.
pub proof fn lemma_fields_bytes_index(fs: Seq<u64>, i: int)
    requires
        0 <= i < fs.len(),
    ensures
        fields_bytes(fs).subrange(8 * i, 8 * i + 8) =~= spec_u64_to_le_bytes(fs[i]),
    decreases i,
{
    lemma_auto_spec_u64_to_from_le_bytes();
    lemma_fields_bytes_len(fs);
    lemma_fields_bytes_len(fs.drop_first());
    if i == 0 {
        assert(fields_bytes(fs).subrange(0, 8) =~= spec_u64_to_le_bytes(fs[0]));
    } else {
        lemma_fields_bytes_index(fs.drop_first(), i - 1);
        assert(fields_bytes(fs).subrange(8 * i, 8 * i + 8) =~= fields_bytes(
            fs.drop_first(),
        ).subrange(8 * (i - 1), 8 * (i - 1) + 8));
    }
}

/// Shape of a frame's encoding: its length, its header bytes, and where the
/// timestamp and the fields sit.
pub proof fn lemma_encoding_shape(f: FrameView)
    requires
        f.fields.len() <= 255,
    ensures
        encoding(f).len() == 10 + 8 * f.fields.len(),
        encoding(f)[0] == f.msg_type,
        encoding(f)[1] == f.fields.len() as u8,
        encoding(f).subrange(2, 10) =~= spec_u64_to_le_bytes(f.timestamp),
        encoding(f).skip(10) =~= fields_bytes(f.fields),
{
    lemma_auto_spec_u64_to_from_le_bytes();
    lemma_fields_bytes_len(f.fields);
}

/// Decoding the front frame looks only at its own bytes: two streams that
/// agree on the first frame's bytes decode the same frame.
pub proof fn lemma_decode_frame_agrees(a: Seq<u8>, b: Seq<u8>)
    requires
        a.len() >= 2,
        a.len() >= frame_len(a[1]),
        b.len() >= a.len() || b.len() >= frame_len(a[1]),
        forall|i: int| 0 <= i < frame_len(a[1]) ==> a[i] == b[i],
    ensures
        decode_frame(a) == decode_frame(b),
{
    let l = frame_len(a[1]);
    assert(b[0] == a[0] && b[1] == a[1]);
    assert(a.subrange(2, 10) =~= b.subrange(2, 10));
    let nf = a[1] as nat;
    assert forall|i: int| 0 <= i < nf implies decode_fields(a.skip(10), nf)[i] == decode_fields(
        b.skip(10),
        nf,
    )[i] by {
        assert(a.skip(10).subrange(8 * i, 8 * i + 8) =~= b.skip(10).subrange(8 * i, 8 * i + 8));
    }
    assert(decode_fields(a.skip(10), nf) =~= decode_fields(b.skip(10), nf));
}

/// Parsing a stream that starts with the encoding of a valid frame yields
/// that frame followed by whatever the remainder yields.
pub proof fn lemma_parse_prepend(f: FrameView, tail: Seq<u8>)
    requires
        f.valid(),
    ensures
        parse(encoding(f) + tail).frames =~= seq![f] + parse(tail).frames,
        parse(encoding(f) + tail).rest == parse(tail).rest,
        parse(encoding(f) + tail).malformed == parse(tail).malformed,
{
    lemma_auto_spec_u64_to_from_le_bytes();
    lemma_encoding_shape(f);
    let b = encoding(f) + tail;
    let nf = f.fields.len() as u8;
    let l = frame_len(nf);
    assert(b[0] == f.msg_type && b[1] == nf);
    assert(valid_header(b[0], b[1]));
    assert(b.len() >= l);
    assert(b.subrange(2, 10) =~= encoding(f).subrange(2, 10));
    assert(decode_frame(b).timestamp == f.timestamp);
    assert forall|i: int| 0 <= i < nf implies decode_fields(b.skip(10), nf as nat)[i]
        == f.fields[i] by {
        lemma_fields_bytes_index(f.fields, i);
        assert(b.skip(10).subrange(8 * i, 8 * i + 8) =~= fields_bytes(f.fields).subrange(
            8 * i,
            8 * i + 8,
        ));
    }
    assert(decode_fields(b.skip(10), nf as nat) =~= f.fields);
    assert(decode_frame(b) == f);
    assert(b.skip(l) =~= tail);
    assert(parse(b).frames == seq![decode_frame(b)] + parse(b.skip(l)).frames);
}

/// Round trip: the concatenated encodings of valid frames parse back to
/// exactly those frames, in order, with no remainder and no decode error.
/// This holds however the bytes are later cut into chunks (see
/// `lemma_parse_chunked`).
pub proof fn lemma_parse_concat(fs: Seq<FrameView>)
    requires
        forall|i: int| 0 <= i < fs.len() ==> #[trigger] fs[i].valid(),
    ensures
        parse(concat_encodings(fs)).frames =~= fs,
        parse(concat_encodings(fs)).rest =~= Seq::<u8>::empty(),
        !parse(concat_encodings(fs)).malformed,
    decreases fs.len(),
{
    if fs.len() == 0 {
        assert(concat_encodings(fs) =~= Seq::<u8>::empty());
    } else {
        assert(forall|i: int|
            0 <= i < fs.drop_first().len() ==> #[trigger] fs.drop_first()[i].valid());
        lemma_parse_concat(fs.drop_first());
        lemma_parse_prepend(fs[0], concat_encodings(fs.drop_first()));
        assert(fs =~= seq![fs[0]] + fs.drop_first());
    }
}

/// Streaming: parsing `a + b` is the same as parsing `a`, keeping its
/// undecoded remainder, and parsing the remainder followed by `b`. Feeding a
/// stream in arbitrary chunks therefore yields the same frames as feeding it
/// whole.
pub proof fn lemma_parse_chunked(a: Seq<u8>, b: Seq<u8>)
    requires
        !parse(a).malformed,
    ensures
        parse(a + b).frames =~= parse(a).frames + parse(parse(a).rest + b).frames,
        parse(a + b).rest == parse(parse(a).rest + b).rest,
        parse(a + b).malformed == parse(parse(a).rest + b).malformed,
    decreases a.len(),
{
    if a.len() < 2 {
        assert(parse(a).rest + b =~= a + b);
        assert(parse(a).frames =~= Seq::<FrameView>::empty());
    } else if a.len() < frame_len(a[1]) {
        assert(parse(a).rest + b =~= a + b);
    } else {
        let l = frame_len(a[1]);
        let c = a + b;
        assert(c[0] == a[0] && c[1] == a[1]);
        assert(forall|i: int| 0 <= i < l ==> c[i] == a[i]);
        lemma_decode_frame_agrees(a, c, );
        assert(c.skip(l) =~= a.skip(l) + b);
        lemma_parse_chunked(a.skip(l), b);
        assert(parse(c).frames == seq![decode_frame(c)] + parse(c.skip(l)).frames);
        assert(parse(a).frames == seq![decode_frame(a)] + parse(a.skip(l)).frames);
    }
}

/// The chunks of a byte stream, concatenated back together.
pub open spec fn concat_chunks(chunks: Seq<Seq<u8>>) -> Seq<u8>
    decreases chunks.len(),
{
    if chunks.len() == 0 {
        Seq::empty()
    } else {
        chunks[0] + concat_chunks(chunks.drop_first())
    }
}

/// The frames an accumulator emits when the chunks arrive one by one over
/// a leftover buffer `buf`: each chunk is appended, the complete frames
/// come off the front, and the remainder carries over.
pub open spec fn stream_frames(buf: Seq<u8>, chunks: Seq<Seq<u8>>) -> Seq<FrameView>
    decreases chunks.len(),
{
    if chunks.len() == 0 {
        Seq::empty()
    } else {
        let p = parse(buf + chunks[0]);
        p.frames + stream_frames(p.rest, chunks.drop_first())
    }
}

/// The bytes left buffered after the chunks have all arrived.
pub open spec fn stream_rest(buf: Seq<u8>, chunks: Seq<Seq<u8>>) -> Seq<u8>
    decreases chunks.len(),
{
    if chunks.len() == 0 {
        buf
    } else {
        stream_rest(parse(buf + chunks[0]).rest, chunks.drop_first())
    }
}

/// Chunking does not matter: a saturated leftover buffer followed by any
/// chunks emits exactly the frames of the whole stream parsed at once, and
/// ends with the whole stream's remainder.
pub proof fn lemma_stream_equals_parse(buf: Seq<u8>, chunks: Seq<Seq<u8>>)
    requires
        parse(buf).frames.len() == 0,
        parse(buf).rest == buf,
        !parse(buf + concat_chunks(chunks)).malformed,
    ensures
        stream_frames(buf, chunks) =~= parse(buf + concat_chunks(chunks)).frames,
        stream_rest(buf, chunks) == parse(buf + concat_chunks(chunks)).rest,
    decreases chunks.len(),
{
    if chunks.len() == 0 {
        assert(buf + concat_chunks(chunks) =~= buf);
    } else {
        let total = buf + concat_chunks(chunks);
        let a = buf + chunks[0];
        let b = concat_chunks(chunks.drop_first());
        assert(total =~= a + b);
        if parse(a).malformed {
            lemma_malformed_persists(a, b);
            assert(false);
        }
        lemma_parse_chunked(a, b);
        lemma_parse_rest_residue(a);
        assert(!parse(parse(a).rest + b).malformed);
        lemma_stream_equals_parse(parse(a).rest, chunks.drop_first());
        assert(parse(a).rest + concat_chunks(chunks.drop_first()) == parse(a).rest + b);
    }
}

/// Round trip under arbitrary chunking: cutting the concatenated encodings
/// of valid frames into any chunks — down to one byte at a time — and
/// feeding them through an empty accumulator yields exactly those frames,
/// in order, with zero leftover bytes after the final complete frame.
pub proof fn lemma_chunked_round_trip(fs: Seq<FrameView>, chunks: Seq<Seq<u8>>)
    requires
        forall|i: int| 0 <= i < fs.len() ==> #[trigger] fs[i].valid(),
        concat_chunks(chunks) == concat_encodings(fs),
    ensures
        stream_frames(Seq::empty(), chunks) =~= fs,
        stream_rest(Seq::empty(), chunks) =~= Seq::<u8>::empty(),
{
    lemma_parse_concat(fs);
    assert(Seq::<u8>::empty() + concat_chunks(chunks) =~= concat_encodings(fs));
    lemma_stream_equals_parse(Seq::empty(), chunks);
}

/// Every frame a parse yields is valid under the schema registry.
pub proof fn lemma_parse_frames_valid(b: Seq<u8>)
    ensures
        forall|i: int| 0 <= i < parse(b).frames.len() ==> #[trigger] parse(b).frames[i].valid(),
    decreases b.len(),
{
    if b.len() >= 2 && valid_header(b[0], b[1]) && b.len() >= frame_len(b[1]) {
        let l = frame_len(b[1]);
        lemma_parse_frames_valid(b.skip(l));
        assert(decode_frame(b).valid());
        assert(parse(b).frames == seq![decode_frame(b)] + parse(b.skip(l)).frames);
    }
}

/// The fields decoded from a byte block re-encode to that block.
pub proof fn lemma_fields_decode_roundtrip(bytes: Seq<u8>, n: nat)
    requires
        bytes.len() >= 8 * n,
    ensures
        fields_bytes(decode_fields(bytes, n)) =~= bytes.take(8 * n as int),
    decreases n,
{
    lemma_auto_spec_u64_to_from_le_bytes();
    if n > 0 {
        let df = decode_fields(bytes, n);
        assert(df[0] == spec_u64_from_le_bytes(bytes.subrange(0, 8)));
        assert(spec_u64_to_le_bytes(df[0]) =~= bytes.subrange(0, 8));
        assert forall|i: int| 0 <= i < n - 1 implies df.drop_first()[i] == decode_fields(
            bytes.skip(8),
            (n - 1) as nat,
        )[i] by {
            assert(bytes.subrange(8 * (i + 1), 8 * (i + 1) + 8) =~= bytes.skip(8).subrange(
                8 * i,
                8 * i + 8,
            ));
        }
        assert(df.drop_first() =~= decode_fields(bytes.skip(8), (n - 1) as nat));
        lemma_fields_decode_roundtrip(bytes.skip(8), (n - 1) as nat);
        assert(fields_bytes(df) == spec_u64_to_le_bytes(df[0]) + fields_bytes(df.drop_first()));
        assert(bytes.take(8 * n as int) =~= bytes.subrange(0, 8) + bytes.skip(8).take(8 * (n - 1) as int));
    }
}

/// More bytes cannot repair a malformed stream: the bad header stays where
/// it is.
pub proof fn lemma_malformed_persists(a: Seq<u8>, b: Seq<u8>)
    requires
        parse(a).malformed,
    ensures
        parse(a + b).malformed,
    decreases a.len(),
{
    let c = a + b;
    if a.len() < 2 {
        // parse(a) is not malformed here; nothing to show
    } else if !valid_header(a[0], a[1]) {
        assert(c[0] == a[0] && c[1] == a[1]);
    } else if a.len() < frame_len(a[1]) {
        // parse(a) is not malformed here either
    } else {
        let l = frame_len(a[1]);
        assert(c[0] == a[0] && c[1] == a[1]);
        assert(c.skip(l) =~= a.skip(l) + b);
        lemma_malformed_persists(a.skip(l), b);
    }
}

/// The remainder of a parse is saturated: parsing it again yields no frame
/// and the same remainder, with the same malformedness.
pub proof fn lemma_parse_rest_residue(b: Seq<u8>)
    ensures
        parse(parse(b).rest).frames =~= Seq::<FrameView>::empty(),
        parse(parse(b).rest).rest == parse(b).rest,
        parse(parse(b).rest).malformed == parse(b).malformed,
    decreases b.len(),
{
    if b.len() >= 2 && valid_header(b[0], b[1]) && b.len() >= frame_len(b[1]) {
        lemma_parse_rest_residue(b.skip(frame_len(b[1])));
    }
}

/// A clean parse splits the stream exactly: the bytes are the encodings of
/// the yielded frames followed by the remainder. Nothing is lost, duplicated
/// or reordered.
pub proof fn lemma_parse_consumed(b: Seq<u8>)
    requires
        !parse(b).malformed,
    ensures
        b =~= concat_encodings(parse(b).frames) + parse(b).rest,
    decreases b.len(),
{
    lemma_auto_spec_u64_to_from_le_bytes();
    if b.len() >= 2 && valid_header(b[0], b[1]) && b.len() >= frame_len(b[1]) {
        let l = frame_len(b[1]);
        let f = decode_frame(b);
        let nf = b[1] as nat;
        assert(parse(b).frames == seq![f] + parse(b.skip(l)).frames);
        lemma_fields_decode_roundtrip(b.skip(10), nf);
        assert(spec_u64_to_le_bytes(f.timestamp) =~= b.subrange(2, 10));
        assert(f.fields.len() == nf);
        assert(encoding(f) =~= b.take(l)) by {
            lemma_fields_bytes_len(f.fields);
            assert(fields_bytes(f.fields) =~= b.skip(10).take(8 * nf as int));
            assert forall|i: int| 0 <= i < l implies encoding(f)[i] == b.take(l)[i] by {
                if i >= 10 {
                    assert(encoding(f)[i] == fields_bytes(f.fields)[i - 10]);
                    assert(b.skip(10).take(8 * nf as int)[i - 10] == b[i]);
                } else if i >= 2 {
                    assert(encoding(f)[i] == spec_u64_to_le_bytes(f.timestamp)[i - 2]);
                    assert(b.subrange(2, 10)[i - 2] == b[i]);
                }
            }
            lemma_fields_bytes_len(f.fields);
            assert(encoding(f).len() == l);
        }
        lemma_parse_consumed(b.skip(l));
        assert(concat_encodings(parse(b).frames) == encoding(f) + concat_encodings(
            parse(b).frames.drop_first(),
        ));
        assert(parse(b).frames.drop_first() =~= parse(b.skip(l)).frames);
        assert(b =~= b.take(l) + b.skip(l));
    } else {
        assert(concat_encodings(parse(b).frames) =~= Seq::<u8>::empty());
    }
}

impl Frame {
    /// Serializes the frame into its self-delimiting wire encoding.
    pub fn serialize(&self) -> (r: Vec<u8>)
        requires
            self@.valid(),
        ensures
            r@ == encoding(self@),
    {
        let mut out: Vec<u8> = Vec::new();
        out.push(self.msg_type);
        out.push(self.fields.len() as u8);
        let mut ts_bytes = u64_to_le_bytes(self.timestamp);
        out.append(&mut ts_bytes);
        let ghost header = seq![
            self@.msg_type,
            self@.fields.len() as u8,
        ] + spec_u64_to_le_bytes(self@.timestamp);
        assert(out@ =~= header + fields_bytes(self@.fields.take(0)));
        let mut i: usize = 0;
        while i < self.fields.len()
            invariant
                i <= self.fields.len(),
                out@ =~= header + fields_bytes(self@.fields.take(i as int)),
            decreases self.fields.len() - i,
        {
            let mut field_bytes = u64_to_le_bytes(self.fields[i]);
            out.append(&mut field_bytes);
            proof {
                assert(self@.fields.take(i + 1) =~= self@.fields.take(i as int).push(
                    self@.fields[i as int],
                ));
                lemma_fields_bytes_snoc(self@.fields.take(i as int), self@.fields[i as int]);
            }
            i = i + 1;
        }
        proof {
            assert(self@.fields.take(self@.fields.len() as int) =~= self@.fields);
        }
        out
    }
}

/// Copies the bytes of `buf` from `pos` on into a fresh vector.
fn tail_from(buf: &Vec<u8>, pos: usize) -> (r: Vec<u8>)
    requires
        pos <= buf.len(),
    ensures
        r@ =~= buf@.skip(pos as int),
{
    let mut r: Vec<u8> = Vec::new();
    let mut k: usize = pos;
    while k < buf.len()
        invariant
            pos <= k <= buf.len(),
            r@ =~= buf@.subrange(pos as int, k as int),
        decreases buf.len() - k,
    {
        r.push(buf[k]);
        proof {
            assert(buf@.subrange(pos as int, k + 1) =~= buf@.subrange(pos as int, k as int).push(
                buf@[k as int],
            ));
        }
        k = k + 1;
    }
    r
}

/// Decodes every complete frame from the front of `buf`, removing the
/// consumed bytes and leaving the trailing partial frame (if any) in place.
/// A front that can never become a frame is reported as `Malformed` with the
/// buffer untouched: nothing is discarded silently.
pub fn deserialize_many(buf: &mut Vec<u8>) -> (r: Result<Vec<Frame>, CodecError>)
    ensures
        parse(old(buf)@).malformed ==> r == Err::<Vec<Frame>, CodecError>(CodecError::Malformed)
            && final (buf)@ == old(buf)@,
        !parse(old(buf)@).malformed ==> r is Ok && views_of(r->Ok_0@) =~= parse(old(buf)@).frames
            && final (buf)@ =~= parse(old(buf)@).rest,
{
    let ghost total = buf@;
    let mut frames: Vec<Frame> = Vec::new();
    let mut pos: usize = 0;
    proof {
        assert(total.skip(0) =~= total);
        assert(views_of(frames@) =~= Seq::<FrameView>::empty());
    }
    loop
        invariant
            pos <= buf.len(),
            buf@ == total,
            parse(total).frames =~= views_of(frames@) + parse(total.skip(pos as int)).frames,
            parse(total).rest == parse(total.skip(pos as int)).rest,
            parse(total).malformed == parse(total.skip(pos as int)).malformed,
        ensures
            pos <= buf.len(),
            buf@ == total,
            !parse(total).malformed,
            parse(total).frames =~= views_of(frames@),
            parse(total).rest == total.skip(pos as int),
        decreases buf.len() - pos,
    {
        let ghost remb = total.skip(pos as int);
        if buf.len() - pos < 2 {
            proof {
                assert(remb.len() < 2);
            }
            break ;
        }
        let t = buf[pos];
        let nf = buf[pos + 1];
        proof {
            assert(remb[0] == t && remb[1] == nf);
        }
        let fc = Frame::field_count(t);
        if !(t < TYPE_COUNT && (nf as usize) == fc) {
            proof {
                assert(!valid_header(remb[0], remb[1]));
                assert(parse(remb).malformed);
            }
            return Err(CodecError::Malformed);
        }
        let flen: usize = HEADER_LEN + FIELD_LEN * (nf as usize);
        proof {
            assert(flen == frame_len(nf));
        }
        if buf.len() - pos < flen {
            proof {
                assert(remb.len() < frame_len(remb[1]));
            }
            break ;
        }
        let ts_slice = slice_subrange(buf.as_slice(), pos + 2, pos + 10);
        let timestamp = u64_from_le_bytes(ts_slice);
        proof {
            assert(buf@.subrange(pos + 2, pos + 10) =~= remb.subrange(2, 10));
        }
        let mut fields: Vec<u64> = Vec::new();
        let mut j: usize = 0;
        while j < nf as usize
            invariant
                j <= nf as usize,
                pos + flen <= buf.len(),
                flen == frame_len(nf),
                buf@ == total,
                remb == total.skip(pos as int),
                fields@.len() == j,
                forall|k: int|
                    0 <= k < j ==> fields@[k] == decode_fields(remb.skip(10), nf as nat)[k],
            decreases nf as usize - j,
        {
            let fslice = slice_subrange(buf.as_slice(), pos + 10 + 8 * j, pos + 18 + 8 * j);
            let v = u64_from_le_bytes(fslice);
            proof {
                assert(buf@.subrange(pos + 10 + 8 * j, pos + 18 + 8 * j) =~= remb.skip(
                    10,
                ).subrange(8 * j, 8 * j + 8));
            }
            fields.push(v);
            j = j + 1;
        }
        proof {
            assert(fields@ =~= decode_fields(remb.skip(10), nf as nat));
        }
        let f = Frame { msg_type: t, timestamp, fields };
        proof {
            assert(f@ == decode_frame(remb));
        }
        let ghost frames_before = frames@;
        frames.push(f);
        pos = pos + flen;
        proof {
            assert(total.skip(pos as int) =~= remb.skip(frame_len(nf)));
            assert(views_of(frames@) =~= views_of(frames_before).push(decode_frame(remb)));
            assert(parse(remb).frames == seq![decode_frame(remb)] + parse(
                remb.skip(frame_len(nf)),
            ).frames);
        }
    }
    let rest = tail_from(buf, pos);
    *buf = rest;
    Ok(frames)
}

/// Largest number of buffered undecoded bytes tolerated from one peer
/// before its accumulator is reset, bounding growth against a corrupted or
/// hostile sender.
pub const MAX_ACCUM_LEN: usize = 4096;

/// Growable byte accumulator feeding the frame decoder: raw receive events
/// are appended, complete frames are taken off the front, and an incomplete
/// trailing frame waits for the next event. One accumulator serves one byte
/// stream (one wireless peer, or the log store's read path).
pub struct FrameAccumulator {
    buf: Vec<u8>,
}

impl View for FrameAccumulator {
    type V = Seq<u8>;

    closed spec fn view(&self) -> Seq<u8> {
        self.buf@
    }
}

impl FrameAccumulator {
    /// An empty accumulator.
    pub fn new() -> (r: FrameAccumulator)
        ensures
            r@ =~= Seq::<u8>::empty(),
    {
        FrameAccumulator { buf: Vec::new() }
    }

    /// Number of buffered undecoded bytes.
    pub fn len(&self) -> (r: usize)
        ensures
            r == self@.len(),
    {
        self.buf.len()
    }

    /// Appends newly received bytes and decodes every complete frame now
    /// available, in order. The undecoded remainder stays buffered unless it
    /// is malformed or over the size bound, in which case the accumulator is
    /// reset and the error is reported — the stream from this peer is broken
    /// past repair, not merely short.
    pub fn feed(&mut self, data: &Vec<u8>) -> (r: Result<Vec<Frame>, CodecError>)
        ensures
            ({
                let input = old(self)@ + data@;
                let p = parse(input);
                &&& !p.malformed && p.rest.len() <= MAX_ACCUM_LEN ==> r is Ok && views_of(
                    r->Ok_0@,
                ) =~= p.frames && final (self)@ =~= p.rest
                &&& !p.malformed && p.rest.len() > MAX_ACCUM_LEN ==> r == Err::<
                    Vec<Frame>,
                    CodecError,
                >(CodecError::Malformed) && final (self)@ =~= Seq::<u8>::empty()
                &&& p.malformed ==> r == Err::<Vec<Frame>, CodecError>(CodecError::Malformed)
                    && final (self)@ =~= Seq::<u8>::empty()
                &&& r is Ok ==> forall|i: int|
                    0 <= i < r->Ok_0@.len() ==> (#[trigger] r->Ok_0@[i])@.valid()
            }),
    {
        let ghost input = self@ + data@;
        let mut k: usize = 0;
        while k < data.len()
            invariant
                k <= data.len(),
                self.buf@ =~= old(self)@ + data@.take(k as int),
            decreases data.len() - k,
        {
            self.buf.push(data[k]);
            proof {
                assert(data@.take(k + 1) =~= data@.take(k as int).push(data@[k as int]));
            }
            k = k + 1;
        }
        proof {
            assert(data@.take(data@.len() as int) =~= data@);
            assert(self.buf@ =~= input);
        }
        proof {
            lemma_parse_frames_valid(input);
        }
        match deserialize_many(&mut self.buf) {
            Ok(frames) => {
                proof {
                    assert forall|i: int| 0 <= i < frames@.len() implies (
                    #[trigger] frames@[i])@.valid() by {
                        assert(frames@[i]@ == views_of(frames@)[i]);
                        assert(views_of(frames@)[i] == parse(input).frames[i]);
                    }
                }
                if self.buf.len() > MAX_ACCUM_LEN {
                    self.buf = Vec::new();
                    Err(CodecError::Malformed)
                } else {
                    Ok(frames)
                }
            },
            Err(e) => {
                self.buf = Vec::new();
                Err(e)
            },
        }
    }
}

} // verus!
