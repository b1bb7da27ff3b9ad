use pngme::chunk::Chunk;
use pngme::chunk_type::ChunkType;
use pngme::container::{magic, Container};
use pngme::error::PngError;

fn chunk(code: &str, message: &str) -> Chunk {
    let t = ChunkType::parse(code).unwrap();
    Chunk::new(t, message.as_bytes().to_vec()).unwrap()
}

fn container_with(chunks: Vec<Chunk>) -> Container {
    let mut c = Container::decode(&magic()).unwrap();
    for ch in chunks {
        c.append(ch);
    }
    c
}

#[test]
fn test_empty_container_round_trip() {
    let c = Container::decode(&magic()).unwrap();
    assert_eq!(c.records().len(), 0);
    assert_eq!(c.encode(), magic());
}

#[test]
fn test_container_round_trip() {
    let c = container_with(vec![chunk("FrSt", "first"), chunk("SeCd", "second")]);
    let buf = c.encode();
    let decoded = Container::decode(&buf).unwrap();
    assert_eq!(decoded.records().len(), 2);
    assert_eq!(decoded.encode(), buf);
}

#[test]
fn test_container_bad_signature() {
    let c = container_with(vec![chunk("FrSt", "first")]);
    let buf = c.encode();
    // Alter each of the eight signature bytes in turn.
    for i in 0..8 {
        let mut tampered = buf.clone();
        tampered[i] ^= 0x01;
        assert_eq!(
            Container::decode(&tampered).unwrap_err(),
            PngError::BadSignature
        );
    }
    assert_eq!(
        Container::decode(&buf[..7]).unwrap_err(),
        PngError::BadSignature
    );
    assert_eq!(Container::decode(&[]).unwrap_err(), PngError::BadSignature);
}

#[test]
fn test_container_truncated_stream() {
    let c = container_with(vec![chunk("FrSt", "first")]);
    let mut buf = c.encode();
    buf.pop();
    assert_eq!(Container::decode(&buf).unwrap_err(), PngError::Truncated);
}

#[test]
fn test_container_checksum_mismatch() {
    let c = container_with(vec![chunk("FrSt", "first")]);
    let mut buf = c.encode();
    let n = buf.len();
    buf[n - 1] ^= 0x80;
    assert_eq!(
        Container::decode(&buf).unwrap_err(),
        PngError::ChecksumMismatch
    );
}

#[test]
fn test_container_malformed_type() {
    let c = container_with(vec![chunk("FrSt", "first")]);
    let mut buf = c.encode();
    // The third type byte of the first record sits right after the
    // signature and the length field; make it a lower-case letter so the
    // reserved-bit rule fails on the binary path.
    buf[8 + 4 + 2] = b's';
    assert_eq!(
        Container::decode(&buf).unwrap_err(),
        PngError::MalformedTypeCode
    );
}

#[test]
fn test_append_then_find() {
    let mut c = container_with(vec![chunk("FrSt", "first"), chunk("SeCd", "second")]);
    let before = c.encode();
    c.append(chunk("NeWc", "hidden message"));
    let found = c.find_by_type("NeWc").expect("appended record not found");
    assert_eq!(found.data_as_string().unwrap(), "hidden message");
    // The new record is last and the earlier records kept their order.
    let encoded = c.encode();
    assert_eq!(&encoded[..before.len()], &before[..]);
    assert_eq!(c.records().len(), 3);
    assert_eq!(c.records()[2].chunk_type().render(), "NeWc");
}

#[test]
fn test_find_absent_is_none() {
    let c = container_with(vec![chunk("FrSt", "first")]);
    assert!(c.find_by_type("NoPe").is_none());
    assert!(c.find_by_type("toolong").is_none());
}

#[test]
fn test_find_returns_first_match() {
    let c = container_with(vec![
        chunk("DuPl", "one"),
        chunk("MiDl", "two"),
        chunk("DuPl", "three"),
    ]);
    let found = c.find_by_type("DuPl").unwrap();
    assert_eq!(found.data_as_string().unwrap(), "one");
}

#[test]
fn test_remove_missing_is_not_found() {
    let mut c = container_with(vec![chunk("FrSt", "first")]);
    let before = c.encode();
    assert_eq!(c.remove_by_type("NoPe").unwrap_err(), PngError::NotFound);
    assert_eq!(c.encode(), before);
}

#[test]
fn test_remove_second_of_three() {
    let mut c = container_with(vec![
        chunk("FrSt", "first"),
        chunk("SeCd", "second"),
        chunk("ThRd", "third"),
    ]);
    c.remove_by_type("SeCd").unwrap();
    assert_eq!(c.records().len(), 2);
    assert_eq!(c.records()[0].chunk_type().render(), "FrSt");
    assert_eq!(c.records()[1].chunk_type().render(), "ThRd");
    assert!(c.find_by_type("SeCd").is_none());
}

#[test]
fn test_container_render() {
    let c = container_with(vec![chunk("RuSt", "This is where your secret message will be!")]);
    assert_eq!(c.render(), "Type: RuSt\nLength: 42\nCrc: 2882656334\n\n");
}
