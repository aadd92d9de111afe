use cypher_in_png::chunk_type::ChunkType;
use cypher_in_png::error::Error;
use std::convert::TryFrom;
use std::str::FromStr;

#[test]
fn test_chunk_type_from_bytes() {
    let expected = [82, 117, 83, 116];
    let actual = ChunkType::try_from([82, 117, 83, 116]).unwrap();

    assert_eq!(expected, actual.bytes());
}

#[test]
fn test_chunk_type_from_str() {
    let expected = ChunkType::try_from([82, 117, 83, 116]).unwrap();
    let actual = ChunkType::from_str("RuSt").unwrap();
    assert_eq!(expected, actual);
}

#[test]
fn test_chunk_type_is_critical() {
    let chunk = ChunkType::from_str("RuSt").unwrap();
    assert!(chunk.is_critical());
}

#[test]
fn test_chunk_type_is_not_critical() {
    let chunk = ChunkType::from_str("ruSt").unwrap();
    assert!(!chunk.is_critical());
}

#[test]
fn test_chunk_type_is_public() {
    let chunk = ChunkType::from_str("RUSt").unwrap();
    assert!(chunk.is_public());
}

#[test]
fn test_chunk_type_is_not_public() {
    let chunk = ChunkType::from_str("RuSt").unwrap();
    assert!(!chunk.is_public());
}

#[test]
fn test_chunk_type_is_reserved_bit_valid() {
    let chunk = ChunkType::from_str("RuSt").unwrap();
    assert!(chunk.is_reserved_bit_valid());
}

#[test]
fn test_chunk_type_is_reserved_bit_invalid() {
    let chunk = ChunkType::from_str("Rust").unwrap();
    assert!(!chunk.is_reserved_bit_valid());
}

#[test]
fn test_chunk_type_is_safe_to_copy() {
    let chunk = ChunkType::from_str("RuSt").unwrap();
    assert!(chunk.is_safe_to_copy());
}

#[test]
fn test_chunk_type_is_unsafe_to_copy() {
    let chunk = ChunkType::from_str("RuST").unwrap();
    assert!(!chunk.is_safe_to_copy());
}

#[test]
fn test_valid_chunk_is_valid() {
    let chunk = ChunkType::from_str("RuSt").unwrap();
    assert!(chunk.is_valid());
}

#[test]
fn test_invalid_chunk_is_valid() {
    let chunk = ChunkType::from_str("Rust").unwrap();
    assert!(!chunk.is_valid());

    let chunk = ChunkType::from_str("Ru1t");
    assert!(chunk.is_err());
}

#[test]
fn test_chunk_type_string() {
    let chunk = ChunkType::from_str("RuSt").unwrap();
    println!("{}", &chunk.to_string());
    assert_eq!(&chunk.to_string(), "RuSt");
}

#[test]
fn test_chunk_type_trait_impls() {
    let chunk_type_1: ChunkType = TryFrom::try_from([82, 117, 83, 116]).unwrap();
    let chunk_type_2: ChunkType = FromStr::from_str("RuSt").unwrap();
    let _chunk_string = chunk_type_1.to_string();
    let _are_chunks_equal = chunk_type_1 == chunk_type_2;
}

#[test]
fn flags_of_rust_tags() {
    let tag = ChunkType::try_from([82, 117, 83, 116]).unwrap();
    assert!(tag.is_critical());
    assert!(!tag.is_public());
    assert!(tag.is_reserved_bit_valid());
    assert!(tag.is_safe_to_copy());
    assert!(tag.is_valid());

    let lower_third = ChunkType::try_from([82, 117, 115, 116]).unwrap();
    assert!(!lower_third.is_reserved_bit_valid());
    assert!(!lower_third.is_valid());
    assert!(lower_third.is_critical());
    assert!(lower_third.is_safe_to_copy());
}

#[test]
fn from_bytes_refuses_what_is_no_letter() {
    assert_eq!(ChunkType::try_from([82, 117, 49, 116]), Err(Error::InvalidType));
    assert_eq!(ChunkType::try_from([64, 117, 83, 116]), Err(Error::InvalidType));
    assert_eq!(ChunkType::try_from([82, 91, 83, 116]), Err(Error::InvalidType));
    assert_eq!(ChunkType::try_from([82, 117, 96, 116]), Err(Error::InvalidType));
    assert_eq!(ChunkType::try_from([82, 117, 83, 123]), Err(Error::InvalidType));
    assert_eq!(ChunkType::try_from([0, 0, 0, 0]), Err(Error::InvalidType));
    assert_eq!(ChunkType::try_from([255, 117, 83, 116]), Err(Error::InvalidType));
    assert!(ChunkType::try_from([65, 90, 97, 122]).is_ok());
}

#[test]
fn from_str_asks_for_four_letters() {
    assert_eq!(ChunkType::from_str(""), Err(Error::InvalidType));
    assert_eq!(ChunkType::from_str("RuS"), Err(Error::InvalidType));
    assert_eq!(ChunkType::from_str("RuStt"), Err(Error::InvalidType));
    assert_eq!(ChunkType::from_str("Ru1t"), Err(Error::InvalidType));
    assert_eq!(ChunkType::from_str("Ru t"), Err(Error::InvalidType));
    assert_eq!(ChunkType::from_str("Ru_t"), Err(Error::InvalidType));
    // Two letters and one two-byte character: four bytes, not four letters.
    assert_eq!(ChunkType::from_str("R\u{e9}t"), Err(Error::InvalidType));
    // Four characters, more than four bytes.
    assert_eq!(ChunkType::from_str("R\u{e9}St"), Err(Error::InvalidType));
    assert_eq!(ChunkType::from_str("RuSt").unwrap().bytes(), [82, 117, 83, 116]);
    assert_eq!(ChunkType::from_str("AZaz").unwrap().bytes(), [65, 90, 97, 122]);
}

#[test]
fn from_str_trait_agrees_with_the_method() {
    let by_trait: Result<ChunkType, Error> = "tEXt".parse();
    assert_eq!(by_trait, ChunkType::from_str("tEXt"));
    let refused: Result<ChunkType, Error> = "tEX7".parse();
    assert_eq!(refused, Err(Error::InvalidType));
}

#[test]
fn letters_are_told_from_other_bytes() {
    for byte in 0..=255u8 {
        assert_eq!(ChunkType::is_alphanumerical(byte), byte.is_ascii_alphabetic());
    }
}

#[test]
fn text_comparison_is_exact() {
    let tag = ChunkType::from_str("RuSt").unwrap();
    assert!(tag.has_text("RuSt"));
    assert!(!tag.has_text("rust"));
    assert!(!tag.has_text("RuS"));
    assert!(!tag.has_text("RuStt"));
    assert!(!tag.has_text(""));
    assert_eq!(tag.to_string(), String::from("RuSt"));
}

#[test]
fn equal_types_have_equal_bytes() {
    let a = ChunkType::from_str("IDAT").unwrap();
    let b = ChunkType::try_from([73, 68, 65, 84]).unwrap();
    let c = ChunkType::from_str("IDAt").unwrap();
    assert!(a == b);
    assert!(a != c);
}
