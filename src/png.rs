use vstd::prelude::*;
use crate::chunk::{
    Chunk, ChunkParseError, ChunkView, be_bytes, be_value, chunk_of, chunk_wf, encode_chunk,
    extend_from_range, lemma_be_round_trip, lemma_chunk_round_trip, lemma_parse_chunk_inverse,
    parse_chunk, word_at,
};
use crate::chunk_type::{ChunkType, valid_type_bytes};

verus! {

/// The eight bytes that open every PNG file.
pub open spec fn png_signature() -> Seq<u8> {
    seq![0x89u8, 0x50u8, 0x4eu8, 0x47u8, 0x0du8, 0x0au8, 0x1au8, 0x0au8]
}

/// Why bytes do not form a PNG file.
#[derive(Debug, Clone, Copy, PartialEq, Eq, Structural)]
pub enum PngParseError {
    /// The first eight bytes are not the PNG signature.
    BadSignature,
    /// The bytes end inside a record.
    TooShort,
    /// A record does not parse.
    Chunk(ChunkParseError),
}

/// No chunk of the requested type.
#[derive(Debug, Clone, Copy, PartialEq, Eq, Structural)]
pub struct ChunkNotFoundError;

/// Records serialized one after another.
pub open spec fn encode_chunks(cs: Seq<ChunkView>) -> Seq<u8>
    decreases cs.len(),
{
    if cs.len() == 0 {
        seq![]
    } else {
        encode_chunk(cs[0]) + encode_chunks(cs.drop_first())
    }
}

/// The records that the bytes hold back to back: each spans twelve bytes more
/// than its length field, and a record cut short by the end is `TooShort`.
#[verifier::opaque]
pub open spec fn parse_chunks(b: Seq<u8>) -> Result<Seq<ChunkView>, PngParseError>
    decreases b.len(),
{
    if b.len() == 0 {
        Ok(seq![])
    } else if b.len() < 12 || b.len() < 12 + be_value(b) as int {
        Err(PngParseError::TooShort)
    } else {
        let span = 12 + be_value(b) as int;
        match parse_chunk(b.subrange(0, span)) {
            Err(e) => Err(PngParseError::Chunk(e)),
            Ok(c) => match parse_chunks(b.subrange(span, b.len() as int)) {
                Ok(rest) => Ok(seq![c] + rest),
                Err(e) => Err(e),
            },
        }
    }
}

/// The signature followed by the records.
pub open spec fn parse_png(b: Seq<u8>) -> Result<Seq<ChunkView>, PngParseError> {
    if b.len() < 8 || b.subrange(0, 8) != png_signature() {
        Err(PngParseError::BadSignature)
    } else {
        parse_chunks(b.subrange(8, b.len() as int))
    }
}

/// `acc` put in front of a successful result; an error passes through.
pub open spec fn prepend(acc: Seq<ChunkView>, r: Result<Seq<ChunkView>, PngParseError>) -> Result<
    Seq<ChunkView>,
    PngParseError,
> {
    match r {
        Ok(rest) => Ok(acc + rest),
        Err(e) => Err(e),
    }
}

/// Whether a record has the type.
pub open spec fn of_type(t: Seq<u8>) -> spec_fn(ChunkView) -> bool {
    |c: ChunkView| c.chunk_type == t
}

/// Some record has the type.
pub open spec fn has_type(cs: Seq<ChunkView>, t: Seq<u8>) -> bool {
    exists|i: int| 0 <= i < cs.len() && #[trigger] cs[i].chunk_type == t
}

/// Record `i` is the first one of the type.
pub open spec fn is_first_of_type(cs: Seq<ChunkView>, t: Seq<u8>, i: int) -> bool {
    &&& 0 <= i < cs.len()
    &&& cs[i].chunk_type == t
    &&& forall|j: int| 0 <= j < i ==> #[trigger] cs[j].chunk_type != t
}

/// Records that are well formed and have valid types.
pub open spec fn all_valid(cs: Seq<ChunkView>) -> bool {
    forall|i: int| 0 <= i < cs.len() ==> chunk_wf(#[trigger] cs[i]) && valid_type_bytes(
        cs[i].chunk_type,
    )
}

/// Serializing one more record appends its bytes.
pub proof fn lemma_encode_chunks_push(cs: Seq<ChunkView>, c: ChunkView)
    ensures
        encode_chunks(cs.push(c)) == encode_chunks(cs) + encode_chunk(c),
    decreases cs.len(),
{
    if cs.len() == 0 {
        assert(cs.push(c).drop_first() =~= cs);
        assert(encode_chunks(cs.push(c)) =~= encode_chunk(c));
    } else {
        assert(cs.push(c).drop_first() =~= cs.drop_first().push(c));
        lemma_encode_chunks_push(cs.drop_first(), c);
        assert(encode_chunks(cs.push(c)) =~= encode_chunks(cs) + encode_chunk(c));
    }
}

/// Parsing yields only well-formed records with valid types.
pub proof fn lemma_parse_chunks_valid(b: Seq<u8>)
    requires
        parse_chunks(b) is Ok,
    ensures
        all_valid(parse_chunks(b)->Ok_0),
    decreases b.len(),
{
    reveal(parse_chunks);
    if b.len() != 0 {
        let span = 12 + be_value(b) as int;
        lemma_parse_chunk_inverse(b.subrange(0, span));
        lemma_parse_chunks_valid(b.subrange(span, b.len() as int));
        let c = parse_chunk(b.subrange(0, span))->Ok_0;
        let rest = parse_chunks(b.subrange(span, b.len() as int))->Ok_0;
        assert forall|i: int| 0 <= i < parse_chunks(b)->Ok_0.len() implies chunk_wf(
            #[trigger] parse_chunks(b)->Ok_0[i],
        ) && valid_type_bytes(parse_chunks(b)->Ok_0[i].chunk_type) by {
            if i > 0 {
                assert(parse_chunks(b)->Ok_0[i] == rest[i - 1]);
            }
        }
    }
}

/// A serialized record followed by more bytes parses to that record in front
/// of what the rest parses to.
pub proof fn lemma_parse_chunks_step(c: ChunkView, tail: Seq<u8>)
    requires
        chunk_wf(c),
        valid_type_bytes(c.chunk_type),
    ensures
        parse_chunks(encode_chunk(c) + tail) == prepend(seq![c], parse_chunks(tail)),
{
    reveal(parse_chunks);
    let head = encode_chunk(c);
    let b = head + tail;
    let span = head.len() as int;
    assert(be_value(b) == c.length) by {
        lemma_be_round_trip(c.length);
        assert(b.subrange(0, 4) =~= be_bytes(c.length));
        assert(be_value(b) == be_value(b.subrange(0, 4)));
    }
    assert(b.subrange(0, span) =~= head);
    assert(b.subrange(span, b.len() as int) =~= tail);
    lemma_chunk_round_trip(c.chunk_type, c.data);
    assert(c == chunk_of(c.chunk_type, c.data));
}

proof fn lemma_all_valid_split(cs: Seq<ChunkView>)
    requires
        all_valid(cs),
        cs.len() > 0,
    ensures
        chunk_wf(cs[0]),
        valid_type_bytes(cs[0].chunk_type),
        all_valid(cs.drop_first()),
{
    assert forall|i: int| 0 <= i < cs.drop_first().len() implies chunk_wf(
        #[trigger] cs.drop_first()[i],
    ) && valid_type_bytes(cs.drop_first()[i].chunk_type) by {
        assert(cs.drop_first()[i] == cs[i + 1]);
    }
}

/// Serializing well-formed records with valid types and parsing the bytes
/// gives back the same records in the same order.
pub proof fn lemma_chunks_round_trip(cs: Seq<ChunkView>)
    requires
        all_valid(cs),
    ensures
        parse_chunks(encode_chunks(cs)) == Ok::<Seq<ChunkView>, PngParseError>(cs),
    decreases cs.len(),
{
    if cs.len() == 0 {
        reveal(parse_chunks);
        assert(encode_chunks(cs) =~= seq![]);
        assert(parse_chunks(seq![]) == Ok::<Seq<ChunkView>, PngParseError>(seq![]));
        assert(cs =~= seq![]);
    } else {
        let c = cs[0];
        let rest = cs.drop_first();
        lemma_all_valid_split(cs);
        lemma_chunks_round_trip(rest);
        lemma_parse_chunks_step(c, encode_chunks(rest));
        assert(encode_chunks(cs) == encode_chunk(c) + encode_chunks(rest));
        assert(prepend(seq![c], parse_chunks(encode_chunks(rest))) == Ok::<
            Seq<ChunkView>,
            PngParseError,
        >(seq![c] + rest));
        assert(seq![c] + rest =~= cs);
        assert(parse_chunks(encode_chunks(cs)) == parse_chunks(encode_chunk(c) + encode_chunks(rest)));
    }
}

/// Serializing a container of well-formed records with valid types, then
/// parsing the bytes, gives back the same records in the same order.
pub proof fn lemma_png_round_trip(cs: Seq<ChunkView>)
    requires
        all_valid(cs),
    ensures
        parse_png(png_signature() + encode_chunks(cs)) == Ok::<Seq<ChunkView>, PngParseError>(cs),
{
    let b = png_signature() + encode_chunks(cs);
    assert(b.subrange(0, 8) =~= png_signature());
    assert(b.subrange(8, b.len() as int) =~= encode_chunks(cs));
    lemma_chunks_round_trip(cs);
}

/// The bytes that a parsed container serializes to parse again to the same
/// records, in the same order.
pub proof fn lemma_parsed_png_round_trip(b: Seq<u8>)
    requires
        parse_png(b) is Ok,
    ensures
        parse_png(png_signature() + encode_chunks(parse_png(b)->Ok_0)) == parse_png(b),
{
    lemma_parse_chunks_valid(b.subrange(8, b.len() as int));
    lemma_png_round_trip(parse_png(b)->Ok_0);
}

/// Whatever follows, bytes that do not open with the signature are refused
/// with `BadSignature`.
pub proof fn lemma_bad_signature(b: Seq<u8>)
    requires
        b.len() < 8 || exists|i: int| 0 <= i < 8 && b[i] != #[trigger] png_signature()[i],
    ensures
        parse_png(b) == Err::<Seq<ChunkView>, PngParseError>(PngParseError::BadSignature),
{
    if b.len() >= 8 {
        let i = choose|i: int| 0 <= i < 8 && b[i] != #[trigger] png_signature()[i];
        assert(b.subrange(0, 8)[i] != png_signature()[i]);
    }
}

/// A PNG file: the signature and an ordered sequence of chunks.
#[derive(Debug)]
pub struct Png {
    chunks: Vec<Chunk>,
}

impl View for Png {
    type V = Seq<ChunkView>;

    closed spec fn view(&self) -> Seq<ChunkView> {
        self.chunks@.map_values(|c: Chunk| c@)
    }
}

impl Png {
    /// The PNG signature.
    pub fn signature() -> (r: Vec<u8>)
        ensures
            r@ == png_signature(),
    {
        let r: Vec<u8> = vec![0x89, 0x50, 0x4e, 0x47, 0x0d, 0x0a, 0x1a, 0x0a];
        assert(r@ =~= png_signature());
        r
    }

    /// Parses a whole file: the signature, then records up to the end.
    pub fn try_from_bytes(bytes: &[u8]) -> (r: Result<Png, PngParseError>)
        ensures
            match parse_png(bytes@) {
                Ok(cs) => r matches Ok(p) && p@ == cs,
                Err(e) => r is Err && r->Err_0 == e,
            },
    {
        let len = bytes.len();
        let sig = Png::signature();
        if len < 8 {
            return Err(PngParseError::BadSignature);
        }
        let mut k: usize = 0;
        while k < 8
            invariant
                0 <= k <= 8 <= len == bytes@.len(),
                sig@ == png_signature(),
                forall|j: int| 0 <= j < k ==> bytes@[j] == #[trigger] png_signature()[j],
            decreases 8 - k,
        {
            if bytes[k] != sig[k] {
                assert(bytes@.subrange(0, 8)[k as int] != png_signature()[k as int]);
                return Err(PngParseError::BadSignature);
            }
            k = k + 1;
        }
        assert(bytes@.subrange(0, 8) =~= png_signature());
        let mut chunks: Vec<Chunk> = Vec::new();
        let mut off: usize = 8;
        while off < len
            invariant
                8 <= off <= len == bytes@.len(),
                parse_png(bytes@) == prepend(
                    chunks@.map_values(|c: Chunk| c@),
                    parse_chunks(bytes@.subrange(off as int, len as int)),
                ),
            decreases len - off,
        {
            proof {
                reveal(parse_chunks);
            }
            let ghost rest = bytes@.subrange(off as int, len as int);
            let ghost acc = chunks@.map_values(|c: Chunk| c@);
            if len - off < 12 {
                return Err(PngParseError::TooShort);
            }
            let n = word_at(bytes, off);
            assert(rest.subrange(0, 4) =~= bytes@.subrange(off as int, off + 4));
            assert(be_value(rest) == be_value(rest.subrange(0, 4)));
            if len - off - 12 < n as usize {
                return Err(PngParseError::TooShort);
            }
            let span: usize = 12 + n as usize;
            let piece = &bytes[off..off + span];
            assert(piece@ =~= rest.subrange(0, span as int));
            match Chunk::try_from_bytes(piece) {
                Err(e) => {
                    return Err(PngParseError::Chunk(e));
                },
                Ok(c) => {
                    chunks.push(c);
                    assert(bytes@.subrange((off + span) as int, len as int) =~= rest.subrange(
                        span as int,
                        rest.len() as int,
                    ));
                    assert(chunks@.map_values(|c: Chunk| c@) =~= acc.push(c@));
                    assert(acc + seq![c@] =~= acc.push(c@));
                    proof {
                        match parse_chunks(rest.subrange(span as int, rest.len() as int)) {
                            Ok(tail) => {
                                assert(acc + (seq![c@] + tail) =~= acc.push(c@) + tail);
                            },
                            Err(_) => {},
                        }
                    }
                    off = off + span;
                },
            }
        }
        assert(bytes@.subrange(off as int, len as int).len() == 0);
        proof {
            reveal(parse_chunks);
        }
        assert(chunks@.map_values(|c: Chunk| c@) + seq![] =~= chunks@.map_values(|c: Chunk| c@));
        Ok(Png { chunks })
    }

    /// The signature, then each chunk's bytes in order.
    pub fn as_bytes(&self) -> (r: Vec<u8>)
        ensures
            r@ == png_signature() + encode_chunks(self@),
    {
        let mut out = Png::signature();
        let mut i: usize = 0;
        while i < self.chunks.len()
            invariant
                0 <= i <= self.chunks@.len(),
                out@ == png_signature() + encode_chunks(self@.take(i as int)),
            decreases self.chunks@.len() - i,
        {
            let cb = self.chunks[i].as_bytes();
            extend_from_range(&mut out, cb.as_slice(), 0, cb.len());
            proof {
                assert(cb@.subrange(0, cb@.len() as int) =~= cb@);
                assert(self@.take(i + 1) =~= self@.take(i as int).push(self@[i as int]));
                lemma_encode_chunks_push(self@.take(i as int), self@[i as int]);
            }
            i = i + 1;
        }
        assert(self@.take(i as int) =~= self@);
        out
    }

    /// The chunks in order.
    pub fn chunks(&self) -> (r: &[Chunk])
        ensures
            r@.map_values(|c: Chunk| c@) == self@,
    {
        self.chunks.as_slice()
    }

    /// Adds a chunk after the last one. Keeping `IEND` last is the caller's
    /// concern.
    pub fn append_chunk(&mut self, chunk: Chunk)
        ensures
            final(self)@ == old(self)@.push(chunk@),
    {
        self.chunks.push(chunk);
        assert(self.chunks@.map_values(|c: Chunk| c@) =~= old(self)@.push(chunk@));
    }

    /// Every chunk of the type, in file order; none is no error.
    pub fn chunks_by_type(&self, chunk_type: &ChunkType) -> (r: Vec<&Chunk>)
        ensures
            r@.map_values(|c: &Chunk| c@) == self@.filter(of_type(chunk_type@)),
    {
        proof {
            reveal(Seq::filter);
            assert(self@.take(0).filter(of_type(chunk_type@)) =~= seq![]);
        }
        let mut found: Vec<&Chunk> = Vec::new();
        let mut i: usize = 0;
        while i < self.chunks.len()
            invariant
                0 <= i <= self.chunks@.len(),
                found@.map_values(|c: &Chunk| c@) == self@.take(i as int).filter(of_type(chunk_type@)),
            decreases self.chunks@.len() - i,
        {
            let c = &self.chunks[i];
            proof {
                reveal(Seq::filter);
                assert(self@.take(i + 1).drop_last() =~= self@.take(i as int));
                assert(self@.take(i + 1).last() == c@);
            }
            let same = c.chunk_type().eq(chunk_type);
            if same {
                found.push(c);
                assert(found@.map_values(|c: &Chunk| c@) =~= self@.take(i as int).filter(of_type(chunk_type@)).push(c@));
            }
            proof {
                reveal(Seq::filter);
                assert(self@.take(i + 1).filter(of_type(chunk_type@)) == (if of_type(chunk_type@)(c@) {
                    self@.take(i as int).filter(of_type(chunk_type@)).push(c@)
                } else {
                    self@.take(i as int).filter(of_type(chunk_type@))
                }));
                assert(same == of_type(chunk_type@)(c@));
                assert(found@.map_values(|c: &Chunk| c@) == self@.take(i + 1).filter(of_type(chunk_type@)));
            }
            i = i + 1;
        }
        assert(self@.take(i as int) =~= self@);
        found
    }

    /// Takes out the first chunk of the type, in file order, and hands it
    /// back; later chunks of the same type stay.
    pub fn remove_chunk_by_type(&mut self, chunk_type: &ChunkType) -> (r: Result<
        Chunk,
        ChunkNotFoundError,
    >)
        ensures
            r is Ok <==> has_type(old(self)@, chunk_type@),
            match r {
                Ok(c) => exists|i: int|
                    #![trigger old(self)@[i]]
                    is_first_of_type(old(self)@, chunk_type@, i) && c@ == old(self)@[i]
                        && final(self)@ == old(self)@.remove(i),
                Err(_) => final(self)@ == old(self)@,
            },
    {
        let mut i: usize = 0;
        while i < self.chunks.len()
            invariant
                0 <= i <= self.chunks@.len(),
                self@ == old(self)@,
                forall|j: int| 0 <= j < i ==> #[trigger] self@[j].chunk_type != chunk_type@,
            decreases self.chunks@.len() - i,
        {
            if self.chunks[i].chunk_type().eq(chunk_type) {
                let ghost before = self@;
                let c = self.chunks.remove(i);
                assert(self@ =~= before.remove(i as int));
                assert(is_first_of_type(before, chunk_type@, i as int));
                return Ok(c);
            }
            i = i + 1;
        }
        Err(ChunkNotFoundError)
    }
}

impl<'a> TryFrom<&'a [u8]> for Png {
    type Error = PngParseError;

    fn try_from(value: &'a [u8]) -> (r: Result<Png, PngParseError>) {
        Png::try_from_bytes(value)
    }
}

/// No spec of its own: the conversion's result is the one that
/// `Png::try_from_bytes` states, which it returns.
impl<'a> vstd::std_specs::convert::TryFromSpecImpl<&'a [u8]> for Png {
    open spec fn obeys_try_from_spec() -> bool {
        false
    }

    open spec fn try_from_spec(value: &'a [u8]) -> Result<Png, PngParseError> {
        Err(PngParseError::BadSignature)
    }
}

} // verus!
