//! Little-endian Blowfish in ECB mode, keyed the way pk2 archives derive their keys.
//!
//! The cipher itself comes from the `blowfish` and `block-modes` crates; this module derives the
//! final key from the user key and applies the cipher to whole 8-byte blocks.

use vstd::prelude::*;
use crate::error::InvalidKey;

verus! {

/// The salt that the user key is XORed with.
pub open spec fn pk2_salt() -> Seq<u8> {
    seq![0x03u8, 0xF8u8, 0xE4u8, 0x44u8, 0x88u8, 0x99u8, 0x3Fu8, 0x64u8, 0xFEu8, 0x35u8]
}

/// The key the cipher is built from: the first ten bytes of the user key XORed with the salt,
/// the rest as given.
pub open spec fn final_key(key: Seq<u8>) -> Seq<u8> {
    Seq::new(key.len(), |i: int| if i < 10 { key[i] ^ pk2_salt()[i] } else { key[i] })
}

/// Whether Blowfish accepts a key of this many bytes.
pub open spec fn key_len_ok(n: nat) -> bool {
    4 <= n <= 56
}

/// Blowfish (little-endian byte order) encryption of one 8-byte block under `key`, as
/// `blowfish::BlowfishLE::encrypt_block` computes it.
pub uninterp spec fn blowfish_le_encrypt_block(key: Seq<u8>, block: Seq<u8>) -> Seq<u8>;

/// Blowfish (little-endian byte order) decryption of one 8-byte block under `key`, as
/// `blowfish::BlowfishLE::decrypt_block` computes it.
pub uninterp spec fn blowfish_le_decrypt_block(key: Seq<u8>, block: Seq<u8>) -> Seq<u8>;

/// ECB mode: every 8-byte block is encrypted on its own.
pub open spec fn ecb_encrypt(key: Seq<u8>, data: Seq<u8>) -> Seq<u8> {
    Seq::new(
        data.len(),
        |i: int| blowfish_le_encrypt_block(key, data.subrange(i / 8 * 8, i / 8 * 8 + 8))[i % 8],
    )
}

/// ECB mode: every 8-byte block is decrypted on its own.
pub open spec fn ecb_decrypt(key: Seq<u8>, data: Seq<u8>) -> Seq<u8> {
    Seq::new(
        data.len(),
        |i: int| blowfish_le_decrypt_block(key, data.subrange(i / 8 * 8, i / 8 * 8 + 8))[i % 8],
    )
}

/// Reports whether `block_modes::Ecb::<BlowfishLE, ZeroPadding>::new_from_slices` accepts `key`.
/// Its source (through `blowfish::Blowfish::new_from_slice`) refuses keys shorter than 4 or
/// longer than 56 bytes and accepts all others.
#[verifier::external_body]
fn cipher_accepts_key(key: &[u8]) -> (ok: bool)
    ensures
        ok == key_len_ok(key@.len()),
{
    <block_modes::Ecb<blowfish::BlowfishLE, block_modes::block_padding::ZeroPadding> as block_modes::BlockMode<_, _>>::new_from_slices(key, &[]).is_ok()
}

/// Encrypts `buf` in place with `block_modes::Ecb::<BlowfishLE, ZeroPadding>::encrypt`, the whole
/// buffer being the message. With a length that is a multiple of 8 the zero padding adds
/// nothing, and ECB encrypts each 8-byte block with `BlowfishLE::encrypt_block`.
#[verifier::external_body]
fn ecb_encrypt_in_place(key: &[u8], buf: &mut [u8])
    requires
        key_len_ok(key@.len()),
        old(buf)@.len() % 8 == 0,
    ensures
        final(buf)@.len() == old(buf)@.len(),
        forall|i: int|
            0 <= i < old(buf)@.len() ==> #[trigger] final(buf)@[i] == blowfish_le_encrypt_block(
                key@,
                old(buf)@.subrange(i / 8 * 8, i / 8 * 8 + 8),
            )[i % 8],
{
    let n = buf.len();
    match <block_modes::Ecb<blowfish::BlowfishLE, block_modes::block_padding::ZeroPadding> as block_modes::BlockMode<_, _>>::new_from_slices(key, &[]) {
        Ok(cipher) => {
            let _ = block_modes::BlockMode::encrypt(cipher, buf, n);
        }
        Err(_) => {}
    }
}

/// Decrypts `buf` in place with `block_modes::Ecb::<BlowfishLE, ZeroPadding>::decrypt`, which
/// decrypts each 8-byte block with `BlowfishLE::decrypt_block` before it looks at the padding.
/// Decryption undoes encryption under the same key, block by block. An empty buffer is left out:
/// the padding check of that crate indexes its last byte.
#[verifier::external_body]
fn ecb_decrypt_in_place(key: &[u8], buf: &mut [u8])
    requires
        key_len_ok(key@.len()),
        old(buf)@.len() % 8 == 0,
        old(buf)@.len() > 0,
    ensures
        final(buf)@.len() == old(buf)@.len(),
        forall|i: int|
            0 <= i < old(buf)@.len() ==> #[trigger] final(buf)@[i] == blowfish_le_decrypt_block(
                key@,
                old(buf)@.subrange(i / 8 * 8, i / 8 * 8 + 8),
            )[i % 8],
        forall|p: Seq<u8>|
            p.len() == old(buf)@.len() && #[trigger] ecb_encrypt(key@, p) == old(buf)@ ==> final(buf)@ == p,
{
    match <block_modes::Ecb<blowfish::BlowfishLE, block_modes::block_padding::ZeroPadding> as block_modes::BlockMode<_, _>>::new_from_slices(key, &[]) {
        Ok(cipher) => {
            let _ = block_modes::BlockMode::decrypt(cipher, buf);
        }
        Err(_) => {}
    }
}

/// The buffer handed to the cipher is not a whole number of 8-byte blocks.
#[derive(Debug, Copy, Clone, PartialEq, Eq, Structural)]
pub struct BlockModeError;

/// A Blowfish cipher keyed with a pk2 key.
pub struct Blowfish {
    key: Vec<u8>,
}

impl Blowfish {
    /// The key the cipher was built from (the user key after salting).
    pub closed spec fn key(&self) -> Seq<u8> {
        self.key@
    }

    pub closed spec fn wf(&self) -> bool {
        key_len_ok(self.key@.len())
    }

    /// Builds the cipher for the user key `key`. Fails exactly when the key is shorter than 4 or
    /// longer than 56 bytes.
    pub fn new(key: &[u8]) -> (r: Result<Blowfish, InvalidKey>)
        ensures
            r is Ok <==> key_len_ok(key@.len()),
            r matches Ok(bf) ==> bf.wf() && bf.key() == final_key(key@),
    {
        let mut k: Vec<u8> = vstd::slice::slice_to_vec(key);
        gen_final_blowfish_key_inplace(k.as_mut_slice());
        if cipher_accepts_key(k.as_slice()) {
            Ok(Blowfish { key: k })
        } else {
            Err(InvalidKey)
        }
    }

    /// Encrypts `buf` in place. Fails, leaving `buf` as it was, unless its length is a multiple
    /// of 8.
    pub fn encrypt(&self, buf: &mut [u8]) -> (r: Result<(), BlockModeError>)
        requires
            self.wf(),
        ensures
            r is Ok <==> old(buf)@.len() % 8 == 0,
            r is Ok ==> final(buf)@ == ecb_encrypt(self.key(), old(buf)@),
            r is Err ==> final(buf)@ == old(buf)@,
    {
        if buf.len() % 8 != 0 {
            return Err(BlockModeError);
        }
        ecb_encrypt_in_place(self.key.as_slice(), buf);
        assert(buf@ =~= ecb_encrypt(self.key(), old(buf)@));
        Ok(())
    }

    /// Decrypts `buf` in place. Fails, leaving `buf` as it was, unless its length is a multiple
    /// of 8. Decrypting what this key encrypted gives back the plain text.
    pub fn decrypt(&self, buf: &mut [u8]) -> (r: Result<(), BlockModeError>)
        requires
            self.wf(),
        ensures
            r is Ok <==> old(buf)@.len() % 8 == 0,
            r is Ok ==> final(buf)@ == ecb_decrypt(self.key(), old(buf)@),
            r is Ok ==> forall|p: Seq<u8>|
                p.len() == old(buf)@.len() && #[trigger] ecb_encrypt(self.key(), p) == old(buf)@
                    ==> final(buf)@ == p,
            r is Err ==> final(buf)@ == old(buf)@,
    {
        if buf.len() % 8 != 0 {
            return Err(BlockModeError);
        }
        if buf.len() == 0 {
            proof {
                assert(ecb_decrypt(self.key(), buf@) =~= buf@);
                assert forall|p: Seq<u8>|
                    p.len() == buf@.len() && #[trigger] ecb_encrypt(self.key(), p) == buf@
                    implies buf@ == p by {
                    assert(p =~= buf@);
                }
            }
            return Ok(());
        }
        ecb_decrypt_in_place(self.key.as_slice(), buf);
        assert(buf@ =~= ecb_decrypt(self.key(), old(buf)@));
        Ok(())
    }
}

/// XORs the first (at most 56) bytes of `key` with the salt padded by zeros.
pub fn gen_final_blowfish_key_inplace(key: &mut [u8])
    ensures
        final(key)@ == final_key(old(key)@),
{
    let key_len = if key.len() < 56 { key.len() } else { 56 };
    let mut base_key = [0u8; 56];
    base_key[0] = 0x03;
    base_key[1] = 0xF8;
    base_key[2] = 0xE4;
    base_key[3] = 0x44;
    base_key[4] = 0x88;
    base_key[5] = 0x99;
    base_key[6] = 0x3F;
    base_key[7] = 0x64;
    base_key[8] = 0xFE;
    base_key[9] = 0x35;
    assert forall|j: int| 10 <= j < 56 implies base_key@[j] == 0u8 by {}
    let mut i: usize = 0;
    while i < key_len
        invariant
            key_len <= key@.len(),
            key_len <= 56,
            key@.len() == old(key)@.len(),
            forall|j: int| 0 <= j < 10 ==> #[trigger] base_key@[j] == pk2_salt()[j],
            forall|j: int| 10 <= j < 56 ==> #[trigger] base_key@[j] == 0u8,
            forall|j: int| 0 <= j < i ==> #[trigger] key@[j] == final_key(old(key)@)[j],
            forall|j: int| i <= j < key@.len() ==> #[trigger] key@[j] == old(key)@[j],
        decreases key_len - i,
    {
        let b = key[i] ^ base_key[i];
        proof {
            if i >= 10 {
                let x = key@[i as int];
                assert(x ^ 0u8 == x) by (bit_vector);
            }
        }
        key[i] = b;
        i = i + 1;
    }
    assert(key@ =~= final_key(old(key)@));
}

} // verus!
