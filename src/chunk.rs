use vstd::prelude::*;
use vstd::arithmetic::div_mod::lemma_fundamental_div_mod_converse;
use crate::chunk_type::{ChunkType, valid_type_bytes};

verus! {

/// The CRC-32/ISO-HDLC checksum (the one of zlib and PNG) of a byte sequence.
pub uninterp spec fn crc32_iso_hdlc(bytes: Seq<u8>) -> u32;

/// The text that a lossy UTF-8 decode makes of a byte sequence.
pub uninterp spec fn utf8_lossy_of(bytes: Seq<u8>) -> Seq<char>;

/// Relies on crc's `Crc::<u32>::new(&CRC_32_ISO_HDLC).checksum`: the
/// CRC-32/ISO-HDLC of the bytes, which depends on the bytes alone.
#[verifier::external_body]
fn crc32_checksum(bytes: &[u8]) -> (r: u32)
    ensures
        r == crc32_iso_hdlc(bytes@),
{
    crc::Crc::<u32>::new(&crc::CRC_32_ISO_HDLC).checksum(bytes)
}

/// Relies on `String::from_utf8_lossy`: the bytes decoded as UTF-8, each
/// invalid sequence replaced; it depends on the bytes alone and never fails.
#[verifier::external_body]
fn utf8_lossy(bytes: &[u8]) -> (r: String)
    ensures
        r@ == utf8_lossy_of(bytes@),
{
    String::from_utf8_lossy(bytes).into_owned()
}

/// The big-endian encoding of a 32-bit word.
pub open spec fn be_bytes(n: u32) -> Seq<u8> {
    seq![
        (n / 0x1000000) as u8,
        ((n / 0x10000) % 0x100) as u8,
        ((n / 0x100) % 0x100) as u8,
        (n % 0x100) as u8,
    ]
}

/// The 32-bit word whose big-endian encoding is the first four bytes.
pub open spec fn be_value(b: Seq<u8>) -> u32
    recommends
        b.len() >= 4,
{
    (b[0] as int * 0x1000000 + b[1] as int * 0x10000 + b[2] as int * 0x100 + b[3] as int) as u32
}

/// Reading back the big-endian encoding of a word gives the word.
pub proof fn lemma_be_round_trip(n: u32)
    ensures
        be_value(be_bytes(n)) == n,
        be_bytes(n).len() == 4,
{
}

/// Encoding the word that four bytes hold gives back the bytes.
pub proof fn lemma_be_bytes_of_value(b: Seq<u8>)
    requires
        b.len() == 4,
    ensures
        be_bytes(be_value(b)) =~= b,
{
    let (b0, b1, b2, b3) = (b[0] as int, b[1] as int, b[2] as int, b[3] as int);
    let v = b0 * 0x1000000 + b1 * 0x10000 + b2 * 0x100 + b3;
    assert(v == be_value(b) as int);
    lemma_fundamental_div_mod_converse(v, 0x1000000, b0, b1 * 0x10000 + b2 * 0x100 + b3);
    lemma_fundamental_div_mod_converse(v, 0x10000, b0 * 0x100 + b1, b2 * 0x100 + b3);
    lemma_fundamental_div_mod_converse(b0 * 0x100 + b1, 0x100, b0, b1);
    lemma_fundamental_div_mod_converse(v, 0x100, b0 * 0x10000 + b1 * 0x100 + b2, b3);
    lemma_fundamental_div_mod_converse(b0 * 0x10000 + b1 * 0x100 + b2, 0x100, b0 * 0x100 + b1, b2);
}

/// What a chunk holds.
pub struct ChunkView {
    pub length: u32,
    pub chunk_type: Seq<u8>,
    pub data: Seq<u8>,
    pub crc: u32,
}

/// The record made of a type and a payload: the length is the payload's and
/// the checksum covers the type followed by the payload.
pub open spec fn chunk_of(t: Seq<u8>, data: Seq<u8>) -> ChunkView {
    ChunkView { length: data.len() as u32, chunk_type: t, data, crc: crc32_iso_hdlc(t + data) }
}

/// A record whose length and checksum agree with its type and payload.
pub open spec fn chunk_wf(c: ChunkView) -> bool {
    &&& c.chunk_type.len() == 4
    &&& c.data.len() <= u32::MAX
    &&& c == chunk_of(c.chunk_type, c.data)
}

/// Length, type, payload and checksum, in that order.
pub open spec fn encode_chunk(c: ChunkView) -> Seq<u8> {
    be_bytes(c.length) + c.chunk_type + c.data + be_bytes(c.crc)
}

/// Why bytes do not form a chunk.
#[derive(Debug, Clone, Copy, PartialEq, Eq, Structural)]
pub enum ChunkParseError {
    /// Fewer than twelve bytes.
    TooShort,
    /// The byte count is not twelve more than the length field.
    LengthMismatch,
    /// The type bytes are not a valid chunk type.
    InvalidChunkType,
    /// The stored checksum differs from the one computed.
    CrcMismatch,
}

/// Type, payload and stored checksum of a chunk's bytes, before the checksum
/// is checked.
pub open spec fn split_fields(b: Seq<u8>) -> Result<(Seq<u8>, Seq<u8>, u32), ChunkParseError> {
    if b.len() < 12 {
        Err(ChunkParseError::TooShort)
    } else if b.len() != 12 + be_value(b) as int {
        Err(ChunkParseError::LengthMismatch)
    } else if !valid_type_bytes(b.subrange(4, 8)) {
        Err(ChunkParseError::InvalidChunkType)
    } else {
        Ok(
            (
                b.subrange(4, 8),
                b.subrange(8, b.len() - 4),
                be_value(b.subrange(b.len() - 4, b.len() as int)),
            ),
        )
    }
}

/// The chunk that the bytes encode, or why they encode none.
pub open spec fn parse_chunk(b: Seq<u8>) -> Result<ChunkView, ChunkParseError> {
    match split_fields(b) {
        Err(e) => Err(e),
        Ok((t, d, stored)) => if stored == crc32_iso_hdlc(t + d) {
            Ok(chunk_of(t, d))
        } else {
            Err(ChunkParseError::CrcMismatch)
        },
    }
}

/// Serializing the record of a valid type and a payload, then parsing the
/// bytes, gives back the same type, payload, length and checksum.
pub proof fn lemma_chunk_round_trip(t: Seq<u8>, data: Seq<u8>)
    requires
        valid_type_bytes(t),
        data.len() <= u32::MAX,
    ensures
        parse_chunk(encode_chunk(chunk_of(t, data))) == Ok::<ChunkView, ChunkParseError>(
            chunk_of(t, data),
        ),
{
    let c = chunk_of(t, data);
    let b = encode_chunk(c);
    lemma_be_round_trip(c.length);
    lemma_be_round_trip(c.crc);
    assert(b.subrange(0, 4) =~= be_bytes(c.length));
    assert(be_value(b) == be_value(b.subrange(0, 4)));
    assert(b.subrange(4, 8) =~= t);
    assert(b.subrange(8, b.len() - 4) =~= data);
    assert(b.subrange(b.len() - 4, b.len() as int) =~= be_bytes(c.crc));
}

/// Every record that parsing yields is well formed, has a valid type, and
/// serializes back to exactly the bytes it was parsed from.
pub proof fn lemma_parse_chunk_inverse(b: Seq<u8>)
    requires
        parse_chunk(b) is Ok,
    ensures
        chunk_wf(parse_chunk(b)->Ok_0),
        valid_type_bytes(parse_chunk(b)->Ok_0.chunk_type),
        encode_chunk(parse_chunk(b)->Ok_0) == b,
{
    let c = parse_chunk(b)->Ok_0;
    let n = be_value(b);
    assert(c.data.len() == n);
    assert(n as u32 == c.length);
    lemma_be_bytes_of_value(b.subrange(0, 4));
    assert(be_value(b) == be_value(b.subrange(0, 4)));
    assert(be_bytes(c.length) =~= b.subrange(0, 4));
    lemma_be_bytes_of_value(b.subrange(b.len() - 4, b.len() as int));
    assert(encode_chunk(c) =~= b);
}

/// A change of one byte inside the type or the payload of a serialized
/// record is caught: parsing fails with `InvalidChunkType` when the type no
/// longer validates, and otherwise with `CrcMismatch` whenever the checksum of
/// the altered type and payload differs from the stored one.
pub proof fn lemma_altered_byte_rejected(c: ChunkView, i: int, x: u8)
    requires
        chunk_wf(c),
        4 <= i < 8 + c.data.len(),
    ensures
        ({
            let b = encode_chunk(c).update(i, x);
            &&& !valid_type_bytes(b.subrange(4, 8)) ==> parse_chunk(b) == Err::<
                ChunkView,
                ChunkParseError,
            >(ChunkParseError::InvalidChunkType)
            &&& valid_type_bytes(b.subrange(4, 8)) && crc32_iso_hdlc(b.subrange(4, b.len() - 4))
                != c.crc ==> parse_chunk(b) == Err::<ChunkView, ChunkParseError>(
                ChunkParseError::CrcMismatch,
            )
        }),
{
    let b = encode_chunk(c).update(i, x);
    lemma_be_round_trip(c.length);
    lemma_be_round_trip(c.crc);
    assert(b.subrange(0, 4) =~= be_bytes(c.length));
    assert(be_value(b) == be_value(b.subrange(0, 4)));
    assert(b.subrange(b.len() - 4, b.len() as int) =~= be_bytes(c.crc));
    assert(b.subrange(4, 8) + b.subrange(8, b.len() - 4) =~= b.subrange(4, b.len() - 4));
}

/// Reads the big-endian word in the first four bytes.
pub fn bytes_to_word(bytes: &[u8]) -> (r: u32)
    requires
        bytes@.len() >= 4,
    ensures
        r == be_value(bytes@),
{
    word_at(bytes, 0)
}

pub(crate) fn word_at(bytes: &[u8], off: usize) -> (r: u32)
    requires
        off + 4 <= bytes@.len(),
    ensures
        r == be_value(bytes@.subrange(off as int, off + 4)),
{
    let b0 = bytes[off] as u32;
    let b1 = bytes[off + 1] as u32;
    let b2 = bytes[off + 2] as u32;
    let b3 = bytes[off + 3] as u32;
    b0 * 0x1000000 + b1 * 0x10000 + b2 * 0x100 + b3
}

/// Appends the big-endian encoding of `n`.
fn push_be(out: &mut Vec<u8>, n: u32)
    ensures
        final(out)@ == old(out)@ + be_bytes(n),
{
    out.push((n / 0x1000000) as u8);
    out.push(((n / 0x10000) % 0x100) as u8);
    out.push(((n / 0x100) % 0x100) as u8);
    out.push((n % 0x100) as u8);
    assert(final(out)@ =~= old(out)@ + be_bytes(n));
}

/// Appends `src[from..to]`.
pub(crate) fn extend_from_range(out: &mut Vec<u8>, src: &[u8], from: usize, to: usize)
    requires
        from <= to <= src@.len(),
    ensures
        final(out)@ == old(out)@ + src@.subrange(from as int, to as int),
{
    let mut i: usize = from;
    while i < to
        invariant
            from <= i <= to <= src@.len(),
            out@ == old(out)@ + src@.subrange(from as int, i as int),
        decreases to - i,
    {
        out.push(src[i]);
        i = i + 1;
        assert(out@ =~= old(out)@ + src@.subrange(from as int, i as int));
    }
}

/// A length-prefixed, checksummed record: type, payload and the checksum of
/// both.
#[derive(Debug)]
pub struct Chunk {
    data_length: u32,
    chunk_type: ChunkType,
    chunk_data: Vec<u8>,
    crc: u32,
}

impl View for Chunk {
    type V = ChunkView;

    closed spec fn view(&self) -> ChunkView {
        ChunkView {
            length: self.data_length,
            chunk_type: self.chunk_type@,
            data: self.chunk_data@,
            crc: self.crc,
        }
    }
}

impl Chunk {
    /// The record of a type and a payload, with its checksum computed.
    pub fn new(chunk_type: ChunkType, data: Vec<u8>) -> (r: Chunk)
        requires
            data@.len() <= u32::MAX,
        ensures
            r@ == chunk_of(chunk_type@, data@),
            chunk_wf(r@),
    {
        let tb = chunk_type.bytes();
        let mut field: Vec<u8> = Vec::new();
        field.push(tb[0]);
        field.push(tb[1]);
        field.push(tb[2]);
        field.push(tb[3]);
        assert(field@ =~= chunk_type@);
        extend_from_range(&mut field, data.as_slice(), 0, data.len());
        assert(data@.subrange(0, data@.len() as int) =~= data@);
        let crc = crc32_checksum(field.as_slice());
        Chunk { data_length: data.len() as u32, chunk_type, chunk_data: data, crc }
    }

    pub fn length(&self) -> (r: u32)
        ensures
            r == self@.length,
    {
        self.data_length
    }

    pub fn chunk_type(&self) -> (r: &ChunkType)
        ensures
            r@ == self@.chunk_type,
    {
        &self.chunk_type
    }

    pub fn data(&self) -> (r: &[u8])
        ensures
            r@ == self@.data,
    {
        self.chunk_data.as_slice()
    }

    pub fn crc(&self) -> (r: u32)
        ensures
            r == self@.crc,
    {
        self.crc
    }

    /// The payload decoded as UTF-8, invalid sequences replaced; never fails.
    pub fn data_as_string(&self) -> (r: Result<String, ()>)
        ensures
            r matches Ok(s) && s@ == utf8_lossy_of(self@.data),
    {
        Ok(utf8_lossy(self.chunk_data.as_slice()))
    }

    /// Length, type, payload and checksum, integers big-endian.
    pub fn as_bytes(&self) -> (r: Vec<u8>)
        ensures
            r@ == encode_chunk(self@),
    {
        let mut bytes: Vec<u8> = Vec::new();
        push_be(&mut bytes, self.data_length);
        let tb = self.chunk_type.bytes();
        bytes.push(tb[0]);
        bytes.push(tb[1]);
        bytes.push(tb[2]);
        bytes.push(tb[3]);
        assert(bytes@ =~= be_bytes(self.data_length) + self.chunk_type@);
        extend_from_range(&mut bytes, self.chunk_data.as_slice(), 0, self.chunk_data.len());
        assert(self.chunk_data@.subrange(0, self.chunk_data@.len() as int) =~= self.chunk_data@);
        push_be(&mut bytes, self.crc);
        bytes
    }

    /// Splits a chunk's bytes into type, payload and stored checksum, checking
    /// everything but the checksum.
    pub fn split_fields(value: &[u8]) -> (r: Result<(ChunkType, Vec<u8>, u32), ChunkParseError>)
        ensures
            match split_fields(value@) {
                Ok((t, d, stored)) => r matches Ok((rt, rd, rs)) && rt@ == t && rd@ == d && rs
                    == stored,
                Err(e) => r == Err::<(ChunkType, Vec<u8>, u32), ChunkParseError>(e),
            },
    {
        let len = value.len();
        if len < 12 {
            return Err(ChunkParseError::TooShort);
        }
        let n = bytes_to_word(value);
        if len - 12 != n as usize {
            return Err(ChunkParseError::LengthMismatch);
        }
        let t = match ChunkType::try_from_bytes([value[4], value[5], value[6], value[7]]) {
            Ok(t) => t,
            Err(_) => {
                assert(seq![value@[4], value@[5], value@[6], value@[7]] =~= value@.subrange(4, 8));
                return Err(ChunkParseError::InvalidChunkType);
            },
        };
        assert(t@ =~= value@.subrange(4, 8));
        let mut data: Vec<u8> = Vec::new();
        extend_from_range(&mut data, value, 8, len - 4);
        assert(data@ =~= value@.subrange(8, len - 4));
        let stored = word_at(value, len - 4);
        Ok((t, data, stored))
    }

    /// Parses a chunk's bytes, recomputing the checksum and comparing it with
    /// the stored one.
    pub fn try_from_bytes(value: &[u8]) -> (r: Result<Chunk, ChunkParseError>)
        ensures
            match parse_chunk(value@) {
                Ok(c) => r matches Ok(k) && k@ == c,
                Err(e) => r is Err && r->Err_0 == e,
            },
            r matches Ok(k) ==> chunk_wf(k@) && valid_type_bytes(k@.chunk_type),
    {
        match Chunk::split_fields(value) {
            Err(e) => Err(e),
            Ok((t, d, stored)) => {
                let c = Chunk::new(t, d);
                if c.crc != stored {
                    Err(ChunkParseError::CrcMismatch)
                } else {
                    Ok(c)
                }
            },
        }
    }
}

impl<'a> TryFrom<&'a [u8]> for Chunk {
    type Error = ChunkParseError;

    fn try_from(value: &'a [u8]) -> (r: Result<Chunk, ChunkParseError>) {
        Chunk::try_from_bytes(value)
    }
}

/// No spec of its own: the conversion's result is the one that
/// `Chunk::try_from_bytes` states, which it returns.
impl<'a> vstd::std_specs::convert::TryFromSpecImpl<&'a [u8]> for Chunk {
    open spec fn obeys_try_from_spec() -> bool {
        false
    }

    open spec fn try_from_spec(value: &'a [u8]) -> Result<Chunk, ChunkParseError> {
        Err(ChunkParseError::TooShort)
    }
}

} // verus!
