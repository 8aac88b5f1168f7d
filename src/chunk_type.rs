use vstd::prelude::*;
use vstd::string::StringSliceAdditionalSpecFns;

verus! {

/// An ASCII letter, upper or lower case.
pub open spec fn is_letter(b: u8) -> bool {
    (65 <= b && b <= 90) || (97 <= b && b <= 122)
}

/// Bit 5 (0x20) of a type byte: clear for upper case, set for lower case.
pub open spec fn bit5_set(b: u8) -> bool {
    b & 0x20u8 != 0
}

/// Four ASCII letters whose third one has bit 5 clear.
pub open spec fn valid_type_bytes(s: Seq<u8>) -> bool {
    &&& s.len() == 4
    &&& forall|i: int| 0 <= i < 4 ==> #[trigger] is_letter(s[i])
    &&& !bit5_set(s[2])
}

/// Among four ASCII letters the case of the third decides validity: with
/// bit 5 of the third byte set (lower case) the bytes are rejected, and the
/// same bytes with that bit cleared are accepted.
pub proof fn lemma_reserved_bit_decides(s: Seq<u8>)
    requires
        s.len() == 4,
        forall|i: int| 0 <= i < 4 ==> #[trigger] is_letter(s[i]),
    ensures
        bit5_set(s[2]) ==> !valid_type_bytes(s),
        !bit5_set(s[2]) ==> valid_type_bytes(s),
        valid_type_bytes(s.update(2, s[2] & 0xdfu8)),
{
    let b = s[2];
    assert(is_letter(b));
    assert(((65 <= b && b <= 90) || (97 <= b && b <= 122)) ==> ((65 <= (b & 0xdfu8) && (b
        & 0xdfu8) <= 90) && (b & 0xdfu8) & 0x20u8 == 0)) by (bit_vector);
    let t = s.update(2, b & 0xdfu8);
    assert forall|i: int| 0 <= i < 4 implies #[trigger] is_letter(t[i]) by {
        if i != 2 {
            assert(is_letter(s[i]));
        }
    }
}

/// The rejection of bytes or text that are not a valid chunk type.
#[derive(Debug, Clone, Copy, PartialEq, Eq, Structural)]
pub struct InvalidChunkType;

/// The 4-byte type field of a chunk.
#[derive(Debug, Clone, Copy)]
pub struct ChunkType {
    bytes: [u8; 4],
}

impl ChunkType {
    /// The four bytes of the field.
    pub closed spec fn spec_bytes(&self) -> [u8; 4] {
        self.bytes
    }

    /// The field that holds the given bytes.
    pub closed spec fn spec_from_array(value: [u8; 4]) -> ChunkType {
        ChunkType { bytes: value }
    }
}

impl View for ChunkType {
    type V = Seq<u8>;

    open spec fn view(&self) -> Seq<u8> {
        self.spec_bytes()@
    }
}

impl PartialEq for ChunkType {
    fn eq(&self, other: &ChunkType) -> (r: bool) {
        let r = self.bytes[0] == other.bytes[0] && self.bytes[1] == other.bytes[1]
            && self.bytes[2] == other.bytes[2] && self.bytes[3] == other.bytes[3];
        proof {
            if r {
                assert(self@ =~= other@);
            }
        }
        r
    }
}

impl vstd::std_specs::cmp::PartialEqSpecImpl for ChunkType {
    open spec fn obeys_eq_spec() -> bool {
        true
    }

    open spec fn eq_spec(&self, other: &ChunkType) -> bool {
        self@ == other@
    }
}

impl Eq for ChunkType {}

/// Relies on collecting characters into a `String` (`FromIterator<char>`):
/// the string holds exactly those characters, in order.
#[verifier::external_body]
fn string_of_chars(chars: &Vec<char>) -> (r: String)
    ensures
        r@ == chars@,
{
    chars.iter().collect::<String>()
}

impl ChunkType {
    /// Takes the first four bytes as they are, without validation.
    pub fn new(byte: &[u8]) -> (r: ChunkType)
        requires
            byte@.len() >= 4,
        ensures
            r@ == byte@.subrange(0, 4),
    {
        let r = ChunkType { bytes: [byte[0], byte[1], byte[2], byte[3]] };
        assert(r@ =~= byte@.subrange(0, 4));
        r
    }

    /// Accepts the bytes exactly when they form a valid chunk type.
    pub fn try_from_bytes(value: [u8; 4]) -> (r: Result<ChunkType, InvalidChunkType>)
        ensures
            r is Ok <==> valid_type_bytes(value@),
            r matches Ok(t) ==> t@ == value@,
            r matches Ok(t) ==> t == ChunkType::spec_from_array(value),
    {
        let t = ChunkType { bytes: value };
        if t.is_valid() {
            Ok(t)
        } else {
            Err(InvalidChunkType)
        }
    }

    /// Accepts text whose UTF-8 encoding is four bytes forming a valid chunk type.
    pub fn try_from_text(s: &str) -> (r: Result<ChunkType, InvalidChunkType>)
        ensures
            r is Ok <==> valid_type_bytes(s.spec_bytes()),
            r matches Ok(t) ==> t@ == s.spec_bytes(),
    {
        let b = s.as_bytes();
        if b.len() != 4 {
            return Err(InvalidChunkType);
        }
        let t = ChunkType::new(b);
        assert(t@ =~= s.spec_bytes());
        if t.is_valid() {
            Ok(t)
        } else {
            Err(InvalidChunkType)
        }
    }

    pub fn bytes(&self) -> (r: [u8; 4])
        ensures
            r@ == self@,
    {
        self.bytes
    }

    fn valid_char(c: u8) -> (r: bool)
        ensures
            r == is_letter(c),
    {
        (65 <= c && c <= 90) || (97 <= c && c <= 122)
    }

    pub fn is_valid(&self) -> (r: bool)
        ensures
            r == valid_type_bytes(self@),
    {
        let mut i: usize = 0;
        while i < 4
            invariant
                0 <= i <= 4,
                self@.len() == 4,
                forall|j: int| 0 <= j < i ==> #[trigger] is_letter(self@[j]),
            decreases 4 - i,
        {
            if !ChunkType::valid_char(self.bytes[i]) {
                return false;
            }
            i = i + 1;
        }
        self.is_reserved_bit_valid()
    }

    pub fn is_critical(&self) -> (r: bool)
        ensures
            r == !bit5_set(self@[0]),
    {
        self.bytes[0] & 0x20 == 0
    }

    pub fn is_public(&self) -> (r: bool)
        ensures
            r == !bit5_set(self@[1]),
    {
        self.bytes[1] & 0x20 == 0
    }

    pub fn is_reserved_bit_valid(&self) -> (r: bool)
        ensures
            r == !bit5_set(self@[2]),
    {
        self.bytes[2] & 0x20 == 0
    }

    pub fn is_safe_to_copy(&self) -> (r: bool)
        ensures
            r == bit5_set(self@[3]),
    {
        self.bytes[3] & 0x20 != 0
    }

    /// The four bytes as characters, one character per byte.
    pub fn to_string(&self) -> (r: String)
        ensures
            r@ == self@.map_values(|b: u8| b as char),
    {
        let chars: Vec<char> = vec![
            self.bytes[0] as char,
            self.bytes[1] as char,
            self.bytes[2] as char,
            self.bytes[3] as char,
        ];
        let r = string_of_chars(&chars);
        assert(r@ =~= self@.map_values(|b: u8| b as char));
        r
    }
}

impl Default for ChunkType {
    /// A placeholder for "no type"; it is never valid.
    fn default() -> (r: ChunkType)
        ensures
            r@ == seq![0xffu8, 0xffu8, 0xffu8, 0u8],
    {
        let r = ChunkType { bytes: [0xff, 0xff, 0xff, 0] };
        assert(r@ =~= seq![0xffu8, 0xffu8, 0xffu8, 0u8]);
        r
    }
}

impl TryFrom<[u8; 4]> for ChunkType {
    type Error = InvalidChunkType;

    fn try_from(value: [u8; 4]) -> (r: Result<ChunkType, InvalidChunkType>) {
        match ChunkType::try_from_bytes(value) {
            Ok(t) => Ok(t),
            Err(_) => Err(InvalidChunkType),
        }
    }
}

impl vstd::std_specs::convert::TryFromSpecImpl<[u8; 4]> for ChunkType {
    open spec fn obeys_try_from_spec() -> bool {
        true
    }

    open spec fn try_from_spec(value: [u8; 4]) -> Result<ChunkType, InvalidChunkType> {
        if valid_type_bytes(value@) {
            Ok(ChunkType::spec_from_array(value))
        } else {
            Err(InvalidChunkType)
        }
    }
}

impl core::str::FromStr for ChunkType {
    type Err = InvalidChunkType;

    fn from_str(s: &str) -> (r: Result<ChunkType, InvalidChunkType>) {
        ChunkType::try_from_text(s)
    }
}

} // verus!
