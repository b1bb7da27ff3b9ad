use pngme::chunk_type::ChunkType;
use pngme::error::PngError;

#[test]
pub fn test_chunk_type_from_bytes() {
    let expected = [82, 117, 83, 116];
    let actual = ChunkType::decode([82, 117, 83, 116]).unwrap();

    assert_eq!(expected, actual.bytes());
}

#[test]
pub fn test_chunk_type_from_str() {
    let expected = ChunkType::decode([82, 117, 83, 116]).unwrap();
    let actual = ChunkType::parse("RuSt").unwrap();
    assert_eq!(expected, actual);
}

#[test]
pub fn test_chunk_type_is_critical() {
    let chunk = ChunkType::parse("RuSt").unwrap();
    assert!(chunk.is_critical());
}

#[test]
pub fn test_chunk_type_is_not_critical() {
    let chunk = ChunkType::parse("ruSt").unwrap();
    assert!(!chunk.is_critical());
}

#[test]
pub fn test_chunk_type_is_public() {
    let chunk = ChunkType::parse("RUSt").unwrap();
    assert!(chunk.is_public());
}

#[test]
pub fn test_chunk_type_is_not_public() {
    let chunk = ChunkType::parse("RuSt").unwrap();
    assert!(!chunk.is_public());
}

#[test]
pub fn test_chunk_type_is_reserved_bit_valid() {
    let chunk = ChunkType::parse("RuSt").unwrap();
    assert!(chunk.is_reserved_bit_valid());
}

#[test]
pub fn test_chunk_type_is_reserved_bit_invalid() {
    let chunk = ChunkType::parse("Rust").unwrap();
    assert!(!chunk.is_reserved_bit_valid());
}

#[test]
pub fn test_chunk_type_is_safe_to_copy() {
    let chunk = ChunkType::parse("RuSt").unwrap();
    assert!(chunk.is_safe_to_copy());
}

#[test]
pub fn test_chunk_type_is_unsafe_to_copy() {
    let chunk = ChunkType::parse("RuST").unwrap();
    assert!(!chunk.is_safe_to_copy());
}

#[test]
pub fn test_valid_chunk_is_valid() {
    let chunk = ChunkType::parse("RuSt").unwrap();
    assert!(chunk.is_valid());
}

#[test]
pub fn test_invalid_chunk_is_valid() {
    let chunk = ChunkType::parse("Rust").unwrap();
    assert!(!chunk.is_valid());

    let chunk = ChunkType::parse("Ru1t");
    assert!(chunk.is_err());
}

#[test]
pub fn test_chunk_type_string() {
    let chunk = ChunkType::parse("RuSt").unwrap();
    assert_eq!(&chunk.render(), "RuSt");
}

#[test]
pub fn test_chunk_type_trait_impls() {
    let chunk_type_1: ChunkType = ChunkType::decode([82, 117, 83, 116]).unwrap();
    let chunk_type_2: ChunkType = ChunkType::parse("RuSt").unwrap();
    let _chunk_string = chunk_type_1.render();
    let _are_chunks_equal = chunk_type_1 == chunk_type_2;
}

#[test]
pub fn test_flags_of_tgic() {
    let chunk = ChunkType::parse("TgIc").unwrap();
    assert!(chunk.is_critical());
    assert!(!chunk.is_public());
    assert!(chunk.is_reserved_bit_valid());
    assert!(chunk.is_safe_to_copy());
    assert!(chunk.is_valid());
}

#[test]
pub fn test_flags_of_tgic_lower_reserved() {
    let chunk = ChunkType::parse("tGic").unwrap();
    assert!(!chunk.is_critical());
    assert!(chunk.is_public());
    assert!(!chunk.is_reserved_bit_valid());
    assert!(!chunk.is_valid());
}

#[test]
pub fn test_parse_render_round_trip() {
    for s in ["TgIc", "tGic", "RuSt", "abcd", "WXYZ"] {
        assert_eq!(ChunkType::parse(s).unwrap().render(), s);
    }
}

#[test]
pub fn test_non_letter_rejected_by_both_paths() {
    assert_eq!(
        ChunkType::decode([82, 117, 49, 116]).unwrap_err(),
        PngError::MalformedTypeCode
    );
    assert_eq!(
        ChunkType::parse("Ru1t").unwrap_err(),
        PngError::MalformedTypeCode
    );
    assert_eq!(
        ChunkType::parse("RuStX").unwrap_err(),
        PngError::MalformedTypeCode
    );
    assert_eq!(
        ChunkType::parse("RuS").unwrap_err(),
        PngError::MalformedTypeCode
    );
}

#[test]
pub fn test_decode_gates_reserved_bit_but_parse_does_not() {
    // `decode` refuses a lower-case third byte ...
    assert_eq!(
        ChunkType::decode(*b"Rust").unwrap_err(),
        PngError::MalformedTypeCode
    );
    // ... while `parse` accepts the same four letters.
    let t = ChunkType::parse("Rust").unwrap();
    assert!(!t.is_valid());
}

#[test]
pub fn test_get_bit_at() {
    assert!(ChunkType::get_bit_at(1, 0));
    assert!(!ChunkType::get_bit_at(1, 1));
    assert!(ChunkType::get_bit_at(0x2000_0000, 29));
    assert!(!ChunkType::get_bit_at(0xFFFF_FFFF, 32));
    assert!(!ChunkType::get_bit_at(0xFFFF_FFFF, 255));
}
