//! The 256 byte archive header.

use vstd::prelude::*;
use crate::blowfish::{Blowfish, ecb_encrypt};
use crate::bytes::{bytes_eq, copy_bytes, le_bytes, le_uint, read_le, write_le};
use crate::error::{HeaderError, InvalidKey};

verus! {

/// The only archive version this crate reads.
pub const PK2_VERSION: u32 = 0x0100_0002u32;

/// How many bytes of the encrypted checksum the header stores.
pub const PK2_CHECKSUM_STORED: usize = 3usize;

/// The length of the header in the archive.
pub const PACK_HEADER_LEN: usize = 256usize;

/// `"JoyMax File Manager!\n"` padded with zeros to 30 bytes.
pub open spec fn pk2_signature() -> Seq<u8> {
    seq![
        74u8, 111, 121, 77, 97, 120, 32, 70, 105, 108, 101, 32, 77, 97, 110, 97, 103, 101, 114,
        33, 10, 0, 0, 0, 0, 0, 0, 0, 0, 0,
    ]
}

/// `"Joymax Pak File\0"`, the plain text whose encryption identifies the key.
pub open spec fn pk2_checksum() -> Seq<u8> {
    seq![74u8, 111, 121, 109, 97, 120, 32, 80, 97, 107, 32, 70, 105, 108, 101, 0]
}

pub fn signature_bytes() -> (r: [u8; 30])
    ensures
        r@ == pk2_signature(),
{
    let r = [
        74u8, 111, 121, 77, 97, 120, 32, 70, 105, 108, 101, 32, 77, 97, 110, 97, 103, 101, 114,
        33, 10, 0, 0, 0, 0, 0, 0, 0, 0, 0,
    ];
    assert(r@ =~= pk2_signature());
    r
}

pub fn checksum_bytes() -> (r: [u8; 16])
    ensures
        r@ == pk2_checksum(),
{
    let r = [74u8, 111, 121, 109, 97, 120, 32, 80, 97, 107, 32, 70, 105, 108, 101, 0];
    assert(r@ =~= pk2_checksum());
    r
}

/// The archive header.
#[derive(Debug)]
pub struct PackHeader {
    pub signature: [u8; 30],
    pub version: u32,
    pub encrypted: bool,
    pub verify: [u8; 16],
    pub reserved: [u8; 205],
}

/// The bytes a header is stored as: signature, little-endian version, encryption flag,
/// checksum and reserved bytes.
pub open spec fn header_bytes(h: PackHeader) -> Seq<u8> {
    h.signature@ + le_bytes(h.version as nat, 4) + seq![if h.encrypted { 1u8 } else { 0u8 }]
        + h.verify@ + h.reserved@
}

/// `h` is the header that the 256 bytes `b` describe.
pub open spec fn header_parsed_from(h: PackHeader, b: Seq<u8>) -> bool {
    &&& h.signature@ == b.subrange(0, 30)
    &&& h.version as nat == le_uint(b.subrange(30, 34))
    &&& h.encrypted == (b[34] != 0)
    &&& h.verify@ == b.subrange(35, 51)
    &&& h.reserved@ == b.subrange(51, 256)
}

/// The checksum that `key` gives: the encryption of the plain checksum.
pub open spec fn encrypted_checksum(key: Seq<u8>) -> Seq<u8> {
    ecb_encrypt(key, pk2_checksum())
}

/// Whether the stored part of the header's checksum matches the one `key` gives.
pub open spec fn header_verifies(h: PackHeader, key: Seq<u8>) -> bool {
    h.verify@.take(3) == encrypted_checksum(key).take(3)
}

impl Default for PackHeader {
    /// An unencrypted header of the supported version, with the plain checksum and zeroed
    /// reserved bytes.
    fn default() -> (r: PackHeader)
        ensures
            r.signature@ == pk2_signature(),
            r.version == PK2_VERSION,
            !r.encrypted,
            r.verify@ == pk2_checksum(),
            r.reserved@ == Seq::new(205, |i: int| 0u8),
    {
        let r = PackHeader {
            signature: signature_bytes(),
            version: PK2_VERSION,
            encrypted: false,
            verify: checksum_bytes(),
            reserved: [0u8; 205],
        };
        assert(r.reserved@ =~= Seq::new(205, |i: int| 0u8));
        r
    }
}

impl PackHeader {
    /// The default header, encrypted: the checksum is encrypted with `bf`.
    pub fn new_encrypted(bf: &Blowfish) -> (r: PackHeader)
        requires
            bf.wf(),
        ensures
            r.signature@ == pk2_signature(),
            r.version == PK2_VERSION,
            r.encrypted,
            r.verify@ == encrypted_checksum(bf.key()),
            r.reserved@ == Seq::new(205, |i: int| 0u8),
    {
        let mut this = PackHeader::default();
        let _ = bf.encrypt(&mut this.verify);
        this.encrypted = true;
        this
    }

    /// Checks the signature, then the version.
    pub fn validate_sig(&self) -> (r: Result<(), HeaderError>)
        ensures
            r == (if self.signature@ != pk2_signature() {
                Err(HeaderError::CorruptedFile)
            } else if self.version != PK2_VERSION {
                Err(HeaderError::UnsupportedVersion(self.version))
            } else {
                Ok(())
            }),
    {
        let sig = signature_bytes();
        if !bytes_eq(&self.signature, &sig) {
            Err(HeaderError::CorruptedFile)
        } else if self.version != PK2_VERSION {
            Err(HeaderError::UnsupportedVersion(self.version))
        } else {
            Ok(())
        }
    }

    /// Checks the stored checksum against the one `bf` gives.
    pub fn verify(&self, bf: &Blowfish) -> (r: Result<(), InvalidKey>)
        requires
            bf.wf(),
        ensures
            r is Ok <==> header_verifies(*self, bf.key()),
    {
        let mut checksum = checksum_bytes();
        let _ = bf.encrypt(&mut checksum);
        let mut i: usize = 0;
        while i < PK2_CHECKSUM_STORED
            invariant
                i <= 3,
                checksum@ == encrypted_checksum(bf.key()),
                forall|j: int| 0 <= j < i ==> checksum@[j] == self.verify@[j],
            decreases 3 - i,
        {
            if checksum[i] != self.verify[i] {
                assert(self.verify@.take(3)[i as int] != encrypted_checksum(bf.key()).take(3)[i as int]);
                return Err(InvalidKey);
            }
            i = i + 1;
        }
        assert(self.verify@.take(3) =~= encrypted_checksum(bf.key()).take(3));
        Ok(())
    }

    /// Reads a header from its 256 bytes.
    pub fn parse(buffer: &[u8; 256]) -> (r: PackHeader)
        ensures
            header_parsed_from(r, buffer@),
    {
        let mut signature = [0u8; 30];
        copy_bytes(&mut signature, 0, buffer, 0, 30);
        let version = read_le(buffer, 30, 4);
        proof {
            crate::bytes::lemma_le_uint_bound(buffer@.subrange(30, 34));
            crate::bytes::lemma_pow256_values();
        }
        let encrypted = buffer[34] != 0;
        let mut verify = [0u8; 16];
        copy_bytes(&mut verify, 0, buffer, 35, 16);
        let mut reserved = [0u8; 205];
        copy_bytes(&mut reserved, 0, buffer, 51, 205);
        proof {
            assert(signature@ =~= signature@.subrange(0, 30));
            assert(verify@ =~= verify@.subrange(0, 16));
            assert(reserved@ =~= reserved@.subrange(0, 205));
        }
        PackHeader { signature, version: version as u32, encrypted, verify, reserved }
    }

    /// Writes this header as its 256 bytes.
    pub fn write_into(&self, buffer: &mut [u8; 256])
        ensures
            final(buffer)@ == header_bytes(*self),
    {
        let ghost b0 = buffer@;
        copy_bytes(buffer, 0, &self.signature, 0, 30);
        let ghost b1 = buffer@;
        write_le(buffer, 30, 4, self.version as u64);
        let ghost b2 = buffer@;
        buffer[34] = if self.encrypted { 1u8 } else { 0u8 };
        let ghost b3 = buffer@;
        copy_bytes(buffer, 35, &self.verify, 0, 16);
        let ghost b4 = buffer@;
        copy_bytes(buffer, 51, &self.reserved, 0, 205);
        proof {
            crate::bytes::lemma_le_bytes_len(self.version as nat, 4);
            let h = header_bytes(*self);
            assert forall|j: int| 0 <= j < 256 implies buffer@[j] == h[j] by {
                if j < 30 {
                    assert(b1.subrange(0, 30)[j] == self.signature@[j]);
                } else if j < 34 {
                    assert(b2.subrange(30, 34)[j - 30] == le_bytes(self.version as nat, 4)[j - 30]);
                } else if j < 35 {
                } else if j < 51 {
                    assert(b4.subrange(35, 51)[j - 35] == self.verify@[j - 35]);
                } else {
                    assert(buffer@.subrange(51, 256)[j - 51] == self.reserved@[j - 51]);
                }
            }
            assert(buffer@ =~= h);
        }
    }
}

/// Writing a header and parsing the bytes gives back the header.
pub proof fn lemma_header_parse_of_write(h: PackHeader)
    ensures
        header_parsed_from(h, header_bytes(h)),
{
    let b = header_bytes(h);
    crate::bytes::lemma_le_bytes_len(h.version as nat, 4);
    crate::bytes::lemma_pow256_values();
    crate::bytes::lemma_le_uint_of_le_bytes(h.version as nat, 4);
    assert(b.subrange(0, 30) =~= h.signature@);
    assert(b.subrange(30, 34) =~= le_bytes(h.version as nat, 4));
    assert(b.subrange(35, 51) =~= h.verify@);
    assert(b.subrange(51, 256) =~= h.reserved@);
}

/// Parsing 256 bytes whose flag byte is 0 or 1 and writing the header gives back the bytes.
pub proof fn lemma_header_write_of_parse(h: PackHeader, b: Seq<u8>)
    requires
        b.len() == 256,
        header_parsed_from(h, b),
        b[34] <= 1,
    ensures
        header_bytes(h) == b,
{
    crate::bytes::lemma_le_bytes_of_le_uint(b.subrange(30, 34));
    assert(header_bytes(h) =~= b);
}

/// A header made with a cipher verifies under that cipher's key.
pub proof fn lemma_encrypted_header_verifies(h: PackHeader, key: Seq<u8>)
    requires
        h.verify@ == encrypted_checksum(key),
    ensures
        header_verifies(h, key),
{
}

/// A header verifies under a key exactly when its first three verify bytes are the first three
/// bytes of the checksum encrypted under that key: the other thirteen verify bytes play no part.
pub proof fn lemma_verify_reads_stored_bytes(h: PackHeader, key: Seq<u8>)
    ensures
        header_verifies(h, key) <==> (h.verify@[0] == encrypted_checksum(key)[0]
            && h.verify@[1] == encrypted_checksum(key)[1] && h.verify@[2] == encrypted_checksum(key)[2]),
{
    let c = encrypted_checksum(key);
    assert(c.len() == 16);
    assert(h.verify@.len() == 16);
    if h.verify@[0] == c[0] && h.verify@[1] == c[1] && h.verify@[2] == c[2] {
        assert(h.verify@.take(3) =~= c.take(3));
    }
    if header_verifies(h, key) {
        assert(h.verify@.take(3)[0] == c.take(3)[0]);
        assert(h.verify@.take(3)[1] == c.take(3)[1]);
        assert(h.verify@.take(3)[2] == c.take(3)[2]);
    }
}

/// Two headers whose first three verify bytes agree verify under the same keys, whatever
/// their other verify bytes hold.
pub proof fn lemma_verify_ignores_unstored_bytes(h1: PackHeader, h2: PackHeader, key: Seq<u8>)
    requires
        h1.verify@[0] == h2.verify@[0],
        h1.verify@[1] == h2.verify@[1],
        h1.verify@[2] == h2.verify@[2],
    ensures
        header_verifies(h1, key) == header_verifies(h2, key),
{
    lemma_verify_reads_stored_bytes(h1, key);
    lemma_verify_reads_stored_bytes(h2, key);
}

} // verus!
