use pngme::chunk::Chunk;
use pngme::chunk_type::ChunkType;
use pngme::error::PngError;

fn testing_chunk() -> Chunk {
    let data_length: u32 = 42;
    let chunk_type = "RuSt".as_bytes();
    let message_bytes = "This is where your secret message will be!".as_bytes();
    let crc: u32 = 2882656334;

    let chunk_data: Vec<u8> = data_length
        .to_be_bytes()
        .iter()
        .chain(chunk_type.iter())
        .chain(message_bytes.iter())
        .chain(crc.to_be_bytes().iter())
        .copied()
        .collect();

    Chunk::decode(chunk_data.as_ref()).unwrap()
}

#[test]
fn test_new_chunk() {
    let chunk_type = ChunkType::parse("RuSt").unwrap();
    let data = "This is where your secret message will be!"
        .as_bytes()
        .to_vec();
    let chunk = Chunk::new(chunk_type, data).unwrap();
    assert_eq!(chunk.length(), 42);
    assert_eq!(chunk.crc(), 2882656334);
}

#[test]
fn test_chunk_length() {
    let chunk = testing_chunk();
    assert_eq!(chunk.length(), 42);
}

#[test]
fn test_chunk_type() {
    let chunk = testing_chunk();
    assert_eq!(chunk.chunk_type().render(), String::from("RuSt"));
}

#[test]
fn test_chunk_string() {
    let chunk = testing_chunk();
    let chunk_string = chunk.data_as_string().unwrap();
    let expected_chunk_string = String::from("This is where your secret message will be!");
    assert_eq!(chunk_string, expected_chunk_string);
}

#[test]
fn test_chunk_crc() {
    let chunk = testing_chunk();
    assert_eq!(chunk.crc(), 2882656334);
}

#[test]
fn test_valid_chunk_from_bytes() {
    let data_length: u32 = 42;
    let chunk_type = "RuSt".as_bytes();
    let message_bytes = "This is where your secret message will be!".as_bytes();
    let crc: u32 = 2882656334;

    let chunk_data: Vec<u8> = data_length
        .to_be_bytes()
        .iter()
        .chain(chunk_type.iter())
        .chain(message_bytes.iter())
        .chain(crc.to_be_bytes().iter())
        .copied()
        .collect();

    let chunk = Chunk::decode(chunk_data.as_ref()).unwrap();

    let chunk_string = chunk.data_as_string().unwrap();
    let expected_chunk_string = String::from("This is where your secret message will be!");

    assert_eq!(chunk.length(), 42);
    assert_eq!(chunk.chunk_type().render(), String::from("RuSt"));
    assert_eq!(chunk_string, expected_chunk_string);
    assert_eq!(chunk.crc(), 2882656334);
}

#[test]
fn test_invalid_chunk_from_bytes() {
    let data_length: u32 = 42;
    let chunk_type = "RuSt".as_bytes();
    let message_bytes = "This is where your secret message will be!".as_bytes();
    let crc: u32 = 2882656333;

    let chunk_data: Vec<u8> = data_length
        .to_be_bytes()
        .iter()
        .chain(chunk_type.iter())
        .chain(message_bytes.iter())
        .chain(crc.to_be_bytes().iter())
        .copied()
        .collect();

    let chunk = Chunk::decode(chunk_data.as_ref());

    assert!(chunk.is_err());
}

#[test]
pub fn test_chunk_trait_impls() {
    let data_length: u32 = 42;
    let chunk_type = "RuSt".as_bytes();
    let message_bytes = "This is where your secret message will be!".as_bytes();
    let crc: u32 = 2882656334;

    let chunk_data: Vec<u8> = data_length
        .to_be_bytes()
        .iter()
        .chain(chunk_type.iter())
        .chain(message_bytes.iter())
        .chain(crc.to_be_bytes().iter())
        .copied()
        .collect();

    let chunk: Chunk = Chunk::decode(chunk_data.as_ref()).unwrap();

    let _chunk_string = chunk.render();
}

#[test]
fn test_chunk_round_trip() {
    let chunk_type = ChunkType::parse("RuSt").unwrap();
    let data = b"any payload at all".to_vec();
    let chunk = Chunk::new(chunk_type, data).unwrap();
    let encoded = chunk.as_bytes();
    let decoded = Chunk::decode(&encoded).unwrap();
    assert_eq!(decoded.chunk_type(), chunk.chunk_type());
    assert_eq!(decoded.data(), chunk.data());
    assert_eq!(decoded.crc(), chunk.crc());
}

#[test]
fn test_empty_payload_round_trip() {
    let chunk_type = ChunkType::parse("RuSt").unwrap();
    let chunk = Chunk::new(chunk_type, Vec::new()).unwrap();
    assert_eq!(chunk.length(), 0);
    let encoded = chunk.as_bytes();
    assert_eq!(encoded.len(), 12);
    let decoded = Chunk::decode(&encoded).unwrap();
    assert_eq!(decoded.data(), &[] as &[u8]);
}

#[test]
fn test_checksum_tamper_detected() {
    let chunk_type = ChunkType::parse("RuSt").unwrap();
    let chunk = Chunk::new(chunk_type, b"payload".to_vec()).unwrap();
    let encoded = chunk.as_bytes();
    let n = encoded.len();
    // Flip every single bit of the four checksum bytes, one at a time.
    for byte in n - 4..n {
        for bit in 0..8 {
            let mut tampered = encoded.clone();
            tampered[byte] ^= 1 << bit;
            assert_eq!(
                Chunk::decode(&tampered).unwrap_err(),
                PngError::ChecksumMismatch
            );
        }
    }
}

#[test]
fn test_truncated_chunk_detected() {
    let chunk_type = ChunkType::parse("RuSt").unwrap();
    let chunk = Chunk::new(chunk_type, b"payload".to_vec()).unwrap();
    let mut encoded = chunk.as_bytes();
    encoded.pop();
    assert_eq!(Chunk::decode(&encoded).unwrap_err(), PngError::Truncated);
    assert_eq!(Chunk::decode(&[]).unwrap_err(), PngError::Truncated);
}

#[test]
fn test_malformed_type_detected() {
    // A record whose type field holds a digit.
    let mut buf: Vec<u8> = Vec::new();
    buf.extend_from_slice(&0u32.to_be_bytes());
    buf.extend_from_slice(b"Ru1t");
    buf.extend_from_slice(&[0, 0, 0, 0]);
    assert_eq!(
        Chunk::decode(&buf).unwrap_err(),
        PngError::MalformedTypeCode
    );
}

#[test]
fn test_invalid_utf8_payload() {
    let chunk_type = ChunkType::parse("RuSt").unwrap();
    let chunk = Chunk::new(chunk_type, vec![0xff, 0xfe]).unwrap();
    assert_eq!(
        chunk.data_as_string().unwrap_err(),
        PngError::InvalidEncoding
    );
}

#[test]
fn test_chunk_render() {
    let chunk = testing_chunk();
    assert_eq!(
        chunk.render(),
        "Type: RuSt\nLength: 42\nCrc: 2882656334\n\n"
    );
}
