use cypher_in_png::chunk::Chunk;
use cypher_in_png::chunk_type::ChunkType;
use cypher_in_png::error::Error;
use std::str::FromStr;

fn testing_chunk() -> Chunk {
    let data_length: u32 = 42;
    let chunk_type = "RuSt".as_bytes();
    let message_bytes = "This is where your secret message will be!".as_bytes();
    let crc: u32 = 2882656334;

    let chunk_data: Vec<u8> = data_length
        .to_be_bytes()
        .iter()
        .chain(chunk_type.iter())
        .chain(message_bytes.iter())
        .chain(crc.to_be_bytes().iter())
        .copied()
        .collect();

    Chunk::try_from(chunk_data.as_ref()).unwrap()
}

#[test]
fn test_new_chunk() {
    let chunk_type = ChunkType::from_str("RuSt").unwrap();
    let data = "This is where your secret message will be!".as_bytes().to_vec();
    let chunk = Chunk::new(chunk_type, data);
    assert_eq!(chunk.length(), 42);
    assert_eq!(chunk.crc(), 2882656334);
}

#[test]
fn test_chunk_length() {
    let chunk = testing_chunk();
    assert_eq!(chunk.length(), 42);
}

#[test]
fn test_chunk_type() {
    let chunk = testing_chunk();
    assert_eq!(chunk.chunk_type().to_string(), String::from("RuSt"));
}

#[test]
fn test_chunk_string() {
    let chunk = testing_chunk();
    let chunk_string = chunk.data_as_string().unwrap();
    let expected_chunk_string = String::from("This is where your secret message will be!");
    assert_eq!(chunk_string, expected_chunk_string);
}

#[test]
fn test_chunk_crc() {
    let chunk = testing_chunk();
    assert_eq!(chunk.crc(), 2882656334);
}

#[test]
fn test_valid_chunk_from_bytes() {
    let data_length: u32 = 42;
    let chunk_type = "RuSt".as_bytes();
    let message_bytes = "This is where your secret message will be!".as_bytes();
    let crc: u32 = 2882656334;

    let chunk_data: Vec<u8> = data_length
        .to_be_bytes()
        .iter()
        .chain(chunk_type.iter())
        .chain(message_bytes.iter())
        .chain(crc.to_be_bytes().iter())
        .copied()
        .collect();

    let chunk = Chunk::try_from(chunk_data.as_ref()).unwrap();

    let chunk_string = chunk.data_as_string().unwrap();
    let expected_chunk_string = String::from("This is where your secret message will be!");

    assert_eq!(chunk.length(), 42);
    assert_eq!(chunk.chunk_type().to_string(), String::from("RuSt"));
    assert_eq!(chunk_string, expected_chunk_string);
    assert_eq!(chunk.crc(), 2882656334);
}

#[test]
fn test_invalid_chunk_from_bytes() {
    let data_length: u32 = 42;
    let chunk_type = "RuSt".as_bytes();
    let message_bytes = "This is where your secret message will be!".as_bytes();
    let crc: u32 = 2882656333;

    let chunk_data: Vec<u8> = data_length
        .to_be_bytes()
        .iter()
        .chain(chunk_type.iter())
        .chain(message_bytes.iter())
        .chain(crc.to_be_bytes().iter())
        .copied()
        .collect();

    let chunk = Chunk::try_from(chunk_data.as_ref());

    assert!(chunk.is_err());
}

#[test]
fn test_chunk_trait_impls() {
    let data_length: u32 = 42;
    let chunk_type = "RuSt".as_bytes();
    let message_bytes = "This is where your secret message will be!".as_bytes();
    let crc: u32 = 2882656334;

    let chunk_data: Vec<u8> = data_length
        .to_be_bytes()
        .iter()
        .chain(chunk_type.iter())
        .chain(message_bytes.iter())
        .chain(crc.to_be_bytes().iter())
        .copied()
        .collect();

    let chunk: Chunk = TryFrom::try_from(chunk_data.as_ref()).unwrap();

    let _chunk_string = chunk.to_string();
}

fn hello_bytes() -> Vec<u8> {
    vec![0, 0, 0, 5, 84, 69, 83, 84, 104, 101, 108, 108, 111, 221, 218, 32, 13]
}

fn decode(bytes: &[u8]) -> Result<Chunk, Error> {
    Chunk::try_from(bytes)
}

#[test]
fn wrong_checksum_is_a_checksum_mismatch() {
    let mut bytes = hello_bytes();
    let last = bytes.len() - 1;
    bytes[last] = 14;
    assert_eq!(decode(&bytes).unwrap_err(), Error::ChecksumMismatch);
}

#[test]
fn encoding_is_length_type_data_checksum() {
    let chunk = Chunk::new(ChunkType::from_str("TEST").unwrap(), b"hello".to_vec());
    assert_eq!(chunk.length(), 5);
    assert_eq!(chunk.crc(), 3722059789);
    assert_eq!(chunk.data(), &b"hello"[..]);
    assert_eq!(chunk.as_bytes(), hello_bytes());
    assert_eq!(chunk.as_bytes().len(), 12 + 5);
}

#[test]
fn empty_chunk_encodes_to_twelve_bytes() {
    let chunk = Chunk::new(ChunkType::from_str("IEND").unwrap(), Vec::new());
    assert_eq!(chunk.length(), 0);
    assert_eq!(chunk.crc(), 0xAE42_6082);
    assert_eq!(chunk.as_bytes(), vec![0, 0, 0, 0, 73, 69, 78, 68, 174, 66, 96, 130]);
    let back = decode(&chunk.as_bytes()).unwrap();
    assert!(back == chunk);
    assert_eq!(back.data_as_string().unwrap(), String::new());
}

#[test]
fn new_chunk_survives_encoding_and_decoding() {
    let texts: [&[u8]; 4] = [b"", b"a", b"hello world", &[0, 255, 128, 7, 7, 7]];
    for data in texts {
        for tag in ["RuSt", "tEXt", "IDAT", "zzzz"] {
            let chunk = Chunk::new(ChunkType::from_str(tag).unwrap(), data.to_vec());
            let back = decode(&chunk.as_bytes()).unwrap();
            assert_eq!(back.length(), chunk.length());
            assert_eq!(back.chunk_type(), chunk.chunk_type());
            assert_eq!(back.data(), chunk.data());
            assert_eq!(back.crc(), chunk.crc());
            assert!(back == chunk);
        }
    }
}

#[test]
fn decoding_ignores_what_follows_the_chunk() {
    let mut bytes = hello_bytes();
    bytes.extend_from_slice(&[1, 2, 3]);
    let chunk = decode(&bytes).unwrap();
    assert_eq!(chunk.as_bytes(), hello_bytes());
}

#[test]
fn every_flipped_data_bit_is_a_checksum_mismatch() {
    let good = hello_bytes();
    for at in 8..13 {
        for bit in 0..8 {
            let mut bad = good.clone();
            bad[at] ^= 1 << bit;
            assert_eq!(decode(&bad).unwrap_err(), Error::ChecksumMismatch);
        }
    }
}

#[test]
fn every_flipped_type_bit_is_refused() {
    let good = hello_bytes();
    for at in 4..8 {
        for bit in 0..8 {
            let mut bad = good.clone();
            bad[at] ^= 1 << bit;
            let expected = if bad[at].is_ascii_alphabetic() {
                Error::ChecksumMismatch
            } else {
                Error::InvalidType
            };
            assert_eq!(decode(&bad).unwrap_err(), expected);
        }
    }
    // 'T' with its case bit flipped is 't': still a letter.
    let mut lower = good.clone();
    lower[4] ^= 32;
    assert_eq!(decode(&lower).unwrap_err(), Error::ChecksumMismatch);
    // 'T' with its lowest bit flipped is 'U'; with bit 2 flipped it is 'P'.
    let mut other = good.clone();
    other[4] ^= 4;
    assert_eq!(decode(&other).unwrap_err(), Error::ChecksumMismatch);
    // 'E' (69) with bit 6 flipped is 5: no letter.
    let mut digit = good;
    digit[5] ^= 64;
    assert_eq!(decode(&digit).unwrap_err(), Error::InvalidType);
}

#[test]
fn short_buffer_is_truncated() {
    let data_length: u32 = 42;
    let mut bytes: Vec<u8> = Vec::new();
    bytes.extend_from_slice(&data_length.to_be_bytes());
    bytes.extend_from_slice(b"RuSt");
    bytes.extend_from_slice(b"only a few bytes");
    assert_eq!(decode(&bytes).unwrap_err(), Error::Truncated);

    let good = hello_bytes();
    for kept in 0..good.len() {
        assert_eq!(decode(&good[..kept]).unwrap_err(), Error::Truncated);
    }
}

#[test]
fn huge_declared_length_is_truncated() {
    let bytes = vec![255, 255, 255, 255, 84, 69, 83, 84, 1, 2, 3, 4, 5, 6, 7, 8];
    assert_eq!(decode(&bytes).unwrap_err(), Error::Truncated);
    let bytes = vec![255, 255, 255, 250, 84, 69, 83, 84];
    assert_eq!(decode(&bytes).unwrap_err(), Error::Truncated);
}

#[test]
fn type_is_checked_before_the_length() {
    // The declared length runs past the buffer, and the type holds a digit.
    let bytes = vec![0, 0, 0, 42, 84, 49, 83, 84, 1, 2, 3];
    assert_eq!(decode(&bytes).unwrap_err(), Error::InvalidType);
    let bytes = vec![0, 0, 0, 0, 84, 69, 83, 32, 0, 0, 0, 0];
    assert_eq!(decode(&bytes).unwrap_err(), Error::InvalidType);
}

#[test]
fn data_that_is_not_utf8_is_no_text() {
    let chunk = Chunk::new(ChunkType::from_str("RuSt").unwrap(), vec![104, 105, 255]);
    assert_eq!(chunk.data_as_string(), Err(Error::Utf8));
    let chunk = Chunk::new(ChunkType::from_str("RuSt").unwrap(), vec![0xC3]);
    assert_eq!(chunk.data_as_string(), Err(Error::Utf8));
    let chunk = Chunk::new(ChunkType::from_str("RuSt").unwrap(), vec![0xC3, 0xA9, 33]);
    assert_eq!(chunk.data_as_string(), Ok(String::from("\u{e9}!")));
}

#[test]
fn length_field_is_four_big_endian_bytes() {
    assert_eq!(Chunk::decode_length(&[0, 0, 0, 42]), Ok(42));
    assert_eq!(Chunk::decode_length(&[0, 0, 1, 0]), Ok(256));
    assert_eq!(Chunk::decode_length(&[1, 2, 3, 4]), Ok(0x0102_0304));
    assert_eq!(Chunk::decode_length(&[255, 255, 255, 255]), Ok(4294967295));
    assert_eq!(Chunk::decode_length(&[0, 0, 42]), Err(Error::Truncated));
    assert_eq!(Chunk::decode_length(&[0, 0, 0, 0, 42]), Err(Error::Truncated));
    assert_eq!(Chunk::decode_length(&[]), Err(Error::Truncated));
}

#[test]
fn summary_names_length_type_size_and_checksum() {
    let chunk = testing_chunk();
    assert_eq!(
        chunk.to_string(),
        String::from("length:42, type:RuSt, data size: 42, crc 2882656334")
    );
    let end = Chunk::new(ChunkType::from_str("IEND").unwrap(), Vec::new());
    assert_eq!(end.to_string(), String::from("length:0, type:IEND, data size: 0, crc 2923585666"));
}

#[test]
fn chunks_are_equal_field_by_field() {
    let a = Chunk::new(ChunkType::from_str("RuSt").unwrap(), vec![1, 2, 3]);
    let b = Chunk::new(ChunkType::from_str("RuSt").unwrap(), vec![1, 2, 3]);
    let c = Chunk::new(ChunkType::from_str("RuSt").unwrap(), vec![1, 2, 4]);
    let d = Chunk::new(ChunkType::from_str("RuSx").unwrap(), vec![1, 2, 3]);
    let e = Chunk::new(ChunkType::from_str("RuSt").unwrap(), vec![1, 2]);
    assert!(a == b);
    assert!(a != c);
    assert!(a != d);
    assert!(a != e);
}
