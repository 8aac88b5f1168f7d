use pngme::{ChunkType, InvalidChunkType};

#[test]
fn rust_type_flags() {
    let t = ChunkType::try_from_text("RuSt").unwrap();
    assert_eq!(t.bytes(), [0x52, 0x75, 0x53, 0x74]);
    assert!(t.is_critical());
    assert!(!t.is_public());
    assert!(t.is_reserved_bit_valid());
    assert!(t.is_safe_to_copy());
    assert!(t.is_valid());
}

#[test]
fn lower_case_third_letter_is_rejected() {
    let t = ChunkType::new(b"Rust");
    assert!(!t.is_reserved_bit_valid());
    assert!(!t.is_valid());
    assert_eq!(ChunkType::try_from_text("Rust"), Err(InvalidChunkType));
}

#[test]
fn third_letter_case_decides_for_letters() {
    let letters: &[u8] = b"AZaz";
    for &a in letters {
        for &b in letters {
            for &d in letters {
                for &c in b"amz" {
                    assert_eq!(ChunkType::try_from_bytes([a, b, c, d]), Err(InvalidChunkType));
                    let upper = c & 0xdf;
                    let ok = ChunkType::try_from_bytes([a, b, upper, d]).unwrap();
                    assert_eq!(ok.bytes(), [a, b, upper, d]);
                }
            }
        }
    }
}

#[test]
fn non_letters_are_rejected() {
    assert_eq!(ChunkType::try_from_bytes([b'R', b'u', b'S', b'1']), Err(InvalidChunkType));
    assert_eq!(ChunkType::try_from_bytes([b'@', b'u', b'S', b't']), Err(InvalidChunkType));
    assert_eq!(ChunkType::try_from_bytes([b'R', b'[', b'S', b't']), Err(InvalidChunkType));
    assert_eq!(ChunkType::try_from_bytes([b'R', b'u', b'S', b'{']), Err(InvalidChunkType));
}

#[test]
fn text_must_be_four_bytes() {
    assert_eq!(ChunkType::try_from_text("RuS"), Err(InvalidChunkType));
    assert_eq!(ChunkType::try_from_text("RuStX"), Err(InvalidChunkType));
    assert_eq!(ChunkType::try_from_text(""), Err(InvalidChunkType));
    assert_eq!(ChunkType::try_from_text("RuSé"), Err(InvalidChunkType));
}

#[test]
fn unchecked_constructor_keeps_first_four_bytes() {
    let t = ChunkType::new(&[1, 2, 3, 4, 5]);
    assert_eq!(t.bytes(), [1, 2, 3, 4]);
    assert!(!t.is_valid());
}

#[test]
fn default_is_never_valid() {
    let t = ChunkType::default();
    assert_eq!(t.bytes(), [0xff, 0xff, 0xff, 0]);
    assert!(!t.is_valid());
}

#[test]
fn equality_is_bytewise() {
    let a = ChunkType::try_from_text("IEND").unwrap();
    let b = ChunkType::try_from_bytes(*b"IEND").unwrap();
    let c = ChunkType::try_from_text("IHDR").unwrap();
    assert!(a == b);
    assert!(a != c);
}

#[test]
fn text_of_type() {
    let t = ChunkType::try_from_text("IEND").unwrap();
    assert_eq!(t.to_string(), String::from("IEND"));
    assert_ne!(t.to_string(), String::from("RuSt"));
}
