use cypher_in_png::chunk_type::ChunkType;
use cypher_in_png::crc::compute;
use std::str::FromStr;

fn checksum_ieee(tag: &str, data: &[u8]) -> u32 {
    let mut all = tag.as_bytes().to_vec();
    all.extend_from_slice(data);
    crc::crc32::checksum_ieee(&all)
}

#[test]
fn checksum_of_known_chunks() {
    let end = ChunkType::from_str("IEND").unwrap();
    assert_eq!(compute(&end, &Vec::new()), 0xAE42_6082);
    let header = ChunkType::from_str("IHDR").unwrap();
    assert_eq!(compute(&header, &vec![0, 0, 0, 1, 0, 0, 0, 1, 8, 6, 0, 0, 0]), 0x1F15_C489);
    let test = ChunkType::from_str("TEST").unwrap();
    assert_eq!(compute(&test, &b"hello".to_vec()), 3722059789);
    let lower = ChunkType::from_str("abcd").unwrap();
    assert_eq!(compute(&lower, &Vec::new()), 3984772369);
    let rust = ChunkType::from_str("RuSt").unwrap();
    assert_eq!(
        compute(&rust, &b"This is where your secret message will be!".to_vec()),
        2882656334
    );
    let odd = ChunkType::from_str("ruSt").unwrap();
    assert_eq!(compute(&odd, &vec![0, 255]), 1633217947);
}

#[test]
fn checksum_agrees_with_the_crc_crate() {
    let mut data: Vec<u8> = Vec::new();
    let mut seed: u32 = 12345;
    for round in 0..300 {
        for tag in ["IHDR", "tEXt", "RuSt", "zZzZ"] {
            let tag_type = ChunkType::from_str(tag).unwrap();
            assert_eq!(compute(&tag_type, &data), checksum_ieee(tag, &data), "round {}", round);
        }
        seed = seed.wrapping_mul(1664525).wrapping_add(1013904223);
        data.push((seed >> 24) as u8);
    }
}

#[test]
fn checksum_tells_single_bytes_apart() {
    let tag = ChunkType::from_str("RuSt").unwrap();
    let data = b"some data to guard".to_vec();
    let good = compute(&tag, &data);
    for at in 0..data.len() {
        for bit in 0..8 {
            let mut bad = data.clone();
            bad[at] ^= 1 << bit;
            assert_ne!(compute(&tag, &bad), good);
        }
    }
}
