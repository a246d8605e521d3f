use pk2::blowfish::Blowfish;
use pk2::format::header::{PACK_HEADER_LEN, PK2_VERSION, PackHeader};
use pk2::HeaderError;

const PK2_SIGNATURE: &[u8; 30] = b"JoyMax File Manager!\n\0\0\0\0\0\0\0\0\0";
const PK2_CHECKSUM: &[u8; 16] = b"Joymax Pak File\0";

#[test]
fn default_header() {
    let header = PackHeader::default();
    assert_eq!(&header.signature, PK2_SIGNATURE);
    assert_eq!(header.version, PK2_VERSION);
    assert_eq!(&header.verify, PK2_CHECKSUM);
    assert!(!header.encrypted);
    assert!(header.validate_sig().is_ok());
}

#[test]
fn header_with_invalid_signature_fails_validation() {
    let mut header = PackHeader::default();
    header.signature[0] = b'X';
    assert!(matches!(header.validate_sig(), Err(HeaderError::CorruptedFile)));
}

#[test]
fn header_with_invalid_version_fails_validation() {
    let header = PackHeader { version: 0x9999, ..Default::default() };
    assert!(matches!(header.validate_sig(), Err(HeaderError::UnsupportedVersion(0x9999))));
}

#[test]
fn parse_write_roundtrip() {
    let written = PackHeader::default();
    let mut buffer = [0u8; PACK_HEADER_LEN];
    written.write_into(&mut buffer);

    let parsed = PackHeader::parse(&buffer);

    assert_eq!(parsed.signature, written.signature);
    assert_eq!(parsed.version, written.version);
    assert_eq!(parsed.encrypted, written.encrypted);
    assert_eq!(parsed.verify, written.verify);
    assert_eq!(parsed.reserved, written.reserved);
}

#[test]
fn encrypted_header_roundtrip() {
    let bf = Blowfish::new(b"testkey").unwrap();
    let written = PackHeader::new_encrypted(&bf);

    assert!(written.encrypted);

    let mut buffer = [0u8; PACK_HEADER_LEN];
    written.write_into(&mut buffer);

    let parsed = PackHeader::parse(&buffer);

    assert_eq!(parsed.signature, written.signature);
    assert_eq!(parsed.version, written.version);
    assert!(parsed.encrypted);
    assert_eq!(parsed.verify, written.verify);
}

#[test]
fn verify_with_correct_key_succeeds() {
    let bf = Blowfish::new(b"testkey").unwrap();
    let header = PackHeader::new_encrypted(&bf);
    assert!(header.verify(&bf).is_ok());
}

#[test]
fn verify_with_wrong_key_fails() {
    let bf_encrypt = Blowfish::new(b"correctkey").unwrap();
    let bf_wrong = Blowfish::new(b"wrongkey").unwrap();
    let header = PackHeader::new_encrypted(&bf_encrypt);
    assert!(header.verify(&bf_wrong).is_err());
}

#[test]
fn verify_unencrypted_header_with_any_key() {
    let header = PackHeader::default();
    let bf = Blowfish::new(b"anykey").unwrap();
    assert!(header.verify(&bf).is_err());
}

#[test]
fn write_then_parse_preserves_encrypted_flag() {
    let header = PackHeader { encrypted: true, ..Default::default() };

    let mut buffer = [0u8; PACK_HEADER_LEN];
    header.write_into(&mut buffer);

    let parsed = PackHeader::parse(&buffer);
    assert!(parsed.encrypted);
}

#[test]
fn write_then_parse_preserves_reserved_bytes() {
    let mut header = PackHeader::default();
    header.reserved[0] = 0xAB;
    header.reserved[100] = 0xCD;
    header.reserved[204] = 0xEF;

    let mut buffer = [0u8; PACK_HEADER_LEN];
    header.write_into(&mut buffer);

    let parsed = PackHeader::parse(&buffer);
    assert_eq!(parsed.reserved[0], 0xAB);
    assert_eq!(parsed.reserved[100], 0xCD);
    assert_eq!(parsed.reserved[204], 0xEF);
}

#[test]
fn pk2_default_key_creates_valid_header() {
    let bf = Blowfish::new(b"169841").unwrap();
    let header = PackHeader::new_encrypted(&bf);

    assert!(header.validate_sig().is_ok());
    assert!(header.verify(&bf).is_ok());
}

#[test]
fn header_layout_of_written_bytes() {
    let header = PackHeader { encrypted: true, ..Default::default() };
    let mut buffer = [0xFFu8; PACK_HEADER_LEN];
    header.write_into(&mut buffer);
    assert_eq!(&buffer[..30], &PK2_SIGNATURE[..]);
    assert_eq!(&buffer[30..34], &[0x02, 0x00, 0x00, 0x01]);
    assert_eq!(buffer[34], 1);
    assert_eq!(&buffer[35..51], &PK2_CHECKSUM[..]);
    assert!(buffer[51..].iter().all(|b| *b == 0));
}

#[test]
fn parse_reads_any_nonzero_flag_as_encrypted() {
    let mut buffer = [0u8; PACK_HEADER_LEN];
    PackHeader::default().write_into(&mut buffer);
    buffer[34] = 7;
    assert!(PackHeader::parse(&buffer).encrypted);
}

#[test]
fn encrypted_header_checksum_differs_from_plain() {
    let bf = Blowfish::new(b"169841").unwrap();
    let header = PackHeader::new_encrypted(&bf);
    assert_ne!(&header.verify, PK2_CHECKSUM);
    let mut plain = header.verify;
    bf.decrypt(&mut plain).unwrap();
    assert_eq!(&plain, PK2_CHECKSUM);
}
