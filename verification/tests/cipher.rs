use pk2::blowfish::{gen_final_blowfish_key_inplace, BlockModeError, Blowfish};
use pk2::InvalidKey;

#[test]
fn key_length_limits() {
    assert_eq!(Blowfish::new(b"abc").err(), Some(InvalidKey));
    assert!(Blowfish::new(b"abcd").is_ok());
    assert!(Blowfish::new(&[7u8; 56]).is_ok());
    assert_eq!(Blowfish::new(&[7u8; 57]).err(), Some(InvalidKey));
}

#[test]
fn decrypt_undoes_encrypt() {
    let bf = Blowfish::new(b"169841").unwrap();
    let plain: Vec<u8> = (0u8..64).collect();
    let mut buf = plain.clone();
    bf.encrypt(&mut buf).unwrap();
    assert_ne!(buf, plain);
    bf.decrypt(&mut buf).unwrap();
    assert_eq!(buf, plain);
}

#[test]
fn ecb_blocks_are_independent() {
    let bf = Blowfish::new(b"169841").unwrap();
    let mut a = [1u8; 16];
    bf.encrypt(&mut a).unwrap();
    assert_eq!(a[..8], a[8..]);
}

#[test]
fn partial_blocks_are_refused() {
    let bf = Blowfish::new(b"169841").unwrap();
    let mut buf = [5u8; 12];
    assert_eq!(bf.encrypt(&mut buf), Err(BlockModeError));
    assert_eq!(buf, [5u8; 12]);
    assert_eq!(bf.decrypt(&mut buf), Err(BlockModeError));
    assert_eq!(buf, [5u8; 12]);
    let mut empty: [u8; 0] = [];
    assert_eq!(bf.encrypt(&mut empty), Ok(()));
    assert_eq!(bf.decrypt(&mut empty), Ok(()));
}

#[test]
fn different_keys_give_different_ciphertexts() {
    let a = Blowfish::new(b"169841").unwrap();
    let b = Blowfish::new(b"169842").unwrap();
    let mut x = [0u8; 8];
    let mut y = [0u8; 8];
    a.encrypt(&mut x).unwrap();
    b.encrypt(&mut y).unwrap();
    assert_ne!(x, y);
}

#[test]
fn key_is_salted() {
    let mut key = *b"169841";
    gen_final_blowfish_key_inplace(&mut key);
    assert_eq!(key, [b'1' ^ 0x03, b'6' ^ 0xF8, b'9' ^ 0xE4, b'8' ^ 0x44, b'4' ^ 0x88, b'1' ^ 0x99]);
    let mut long = [0u8; 12];
    gen_final_blowfish_key_inplace(&mut long);
    assert_eq!(long, [0x03, 0xF8, 0xE4, 0x44, 0x88, 0x99, 0x3F, 0x64, 0xFE, 0x35, 0, 0]);
}
