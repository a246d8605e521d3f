//! Entries: the 128 byte records that blocks consist of.

use vstd::prelude::*;
use vstd::utf8::encode_utf8;
use vstd::string::StringSliceAdditionalSpecFns;
use crate::bytes::{copy_bytes, le_bytes, le_uint, read_le, write_le, written_up_to, lemma_written_extend};
use crate::filetime::FILETIME;
use crate::format::{BlockOffset, ChainOffset, StreamOffset};

verus! {

/// The length of an entry in the archive.
pub const PK2_FILE_ENTRY_SIZE: usize = 128usize;

/// The type byte of an empty entry.
pub const TY_EMPTY: u8 = 0u8;

/// The type byte of a directory entry.
pub const TY_DIRECTORY: u8 = 1u8;

/// The type byte of a file entry.
pub const TY_FILE: u8 = 2u8;

/// How many bytes of the encoded name an entry stores.
pub const NAME_STORED: usize = 80usize;

/// Names that are not ASCII and whose UTF-8 form is this long or longer are stored as if empty:
/// the encoder's buffer sizes, up to a few times the input's length rounded up to a power of
/// two, could overflow `usize`, which makes it panic.
pub const NAME_ENCODE_LIMIT: usize = usize::MAX / 64;

/// The EUC-KR decoding of `bytes`, malformed sequences replaced by U+FFFD, as
/// `encoding_rs::EUC_KR.decode_without_bom_handling` computes it.
pub uninterp spec fn euc_kr_decode(bytes: Seq<u8>) -> Seq<char>;

/// The EUC-KR encoding of `chars`, unmappable characters replaced by numeric character
/// references, as `encoding_rs::EUC_KR.encode` computes it.
pub uninterp spec fn euc_kr_encode(chars: Seq<char>) -> Seq<u8>;

/// All bytes are below 0x80.
pub open spec fn is_ascii_bytes(b: Seq<u8>) -> bool {
    forall|i: int| 0 <= i < b.len() ==> #[trigger] b[i] < 0x80
}

/// Decodes `bytes` with `encoding_rs::EUC_KR.decode_without_bom_handling` and takes the string.
/// EUC-KR is ASCII compatible: the source returns ASCII-only input unchanged (as a borrow of
/// the input bytes). Large inputs are left out: the source panics when its buffer size
/// computation overflows.
#[verifier::external_body]
fn decode_euc_kr(bytes: &[u8]) -> (s: String)
    requires
        bytes@.len() <= 4096,
    ensures
        s@ == euc_kr_decode(bytes@),
        is_ascii_bytes(bytes@) ==> encode_utf8(s@) == bytes@,
{
    encoding_rs::EUC_KR.decode_without_bom_handling(bytes).0.into_owned()
}

/// Encodes `s` with `encoding_rs::EUC_KR.encode` and takes the bytes. EUC-KR is ASCII
/// compatible: the source returns an ASCII-only string's own bytes (borrowed, with no buffer
/// computed). Other strings near the size of memory are left out: the source panics when its
/// buffer size computation overflows.
#[verifier::external_body]
fn encode_euc_kr(s: &str) -> (b: Vec<u8>)
    requires
        is_ascii_bytes(s.spec_bytes()) || s.spec_bytes().len() < NAME_ENCODE_LIMIT,
    ensures
        b@ == euc_kr_encode(s@),
        is_ascii_bytes(s.spec_bytes()) ==> b@ == s.spec_bytes(),
{
    encoding_rs::EUC_KR.encode(s).0.into_owned()
}

/// What a non-empty entry points at.
#[derive(Clone, Copy, Debug, PartialEq, Eq, Structural)]
pub enum DirectoryOrFile {
    Directory { pos_children: ChainOffset },
    File { pos_data: StreamOffset, size: u32 },
}

/// A directory or file entry.
#[derive(Clone, Debug, PartialEq, Eq)]
pub struct NonEmptyEntry {
    pub kind: DirectoryOrFile,
    pub name: String,
    pub access_time: FILETIME,
    pub create_time: FILETIME,
    pub modify_time: FILETIME,
}

/// An entry of a block: empty or not, with the link to the next block that only the last
/// entry of a block uses.
#[derive(Clone, Debug, PartialEq, Eq)]
pub struct PackEntry {
    pub entry: Option<NonEmptyEntry>,
    pub next_block: Option<BlockOffset>,
}

/// The entry type byte is not 0, 1 or 2, or a directory or file points at offset 0.
#[derive(Clone, Copy, Debug, PartialEq, Eq, Structural)]
pub struct InvalidPackEntryType(pub u8);

/// The UTF-8 bytes of a name.
pub open spec fn name_bytes(name: Seq<char>) -> Seq<u8> {
    encode_utf8(name)
}

/// ASCII case-insensitive equality of byte strings, as `eq_ignore_ascii_case` defines it.
pub open spec fn ascii_lower(b: u8) -> u8 {
    if 65 <= b <= 90 { (b + 32) as u8 } else { b }
}

pub open spec fn eq_ignore_ascii_case(a: Seq<u8>, b: Seq<u8>) -> bool {
    a.len() == b.len() && forall|i: int| 0 <= i < a.len() ==> #[trigger] ascii_lower(a[i]) == ascii_lower(b[i])
}

/// Compares two strings ASCII case-insensitively, byte by byte.
pub fn str_eq_ignore_ascii_case(a: &str, b: &str) -> (r: bool)
    ensures
        r == eq_ignore_ascii_case(a.spec_bytes(), b.spec_bytes()),
{
    let x = a.as_bytes();
    let y = b.as_bytes();
    if x.len() != y.len() {
        return false;
    }
    let mut i: usize = 0;
    while i < x.len()
        invariant
            x@ == a.spec_bytes(),
            y@ == b.spec_bytes(),
            x@.len() == y@.len(),
            i <= x@.len(),
            forall|j: int| 0 <= j < i ==> #[trigger] ascii_lower(x@[j]) == ascii_lower(y@[j]),
        decreases x@.len() - i,
    {
        let p = x[i];
        let q = y[i];
        let lp = if 65 <= p && p <= 90 { p + 32 } else { p };
        let lq = if 65 <= q && q <= 90 { q + 32 } else { q };
        if lp != lq {
            assert(ascii_lower(x@[i as int]) != ascii_lower(y@[i as int]));
            return false;
        }
        i = i + 1;
    }
    true
}

impl NonEmptyEntry {
    pub fn name(&self) -> (r: &str)
        ensures
            r@ == self.name@,
    {
        self.name.as_str()
    }

    /// Renames the entry. Names longer than 81 bytes are refused.
    pub fn set_name(&mut self, name: &str) -> (r: Result<(), ()>)
        ensures
            r is Ok <==> name.len() <= 81,
            r is Ok ==> final(self).name@ == name@ && final(self).kind == old(self).kind
                && final(self).access_time == old(self).access_time && final(self).create_time
                == old(self).create_time && final(self).modify_time == old(self).modify_time,
            r is Err ==> *final(self) == *old(self),
    {
        if name.len() > 81 {
            return Err(());
        }
        self.name = name.to_owned();
        Ok(())
    }

    pub fn is_directory(&self) -> (r: bool)
        ensures
            r == (self.kind is Directory),
    {
        matches!(self.kind, DirectoryOrFile::Directory { .. })
    }

    pub fn is_file(&self) -> (r: bool)
        ensures
            r == (self.kind is File),
    {
        matches!(self.kind, DirectoryOrFile::File { .. })
    }

    pub fn directory_children_offset(&self) -> (r: Option<ChainOffset>)
        ensures
            r == (match self.kind {
                DirectoryOrFile::Directory { pos_children } => Some(pos_children),
                _ => None,
            }),
    {
        match self.kind {
            DirectoryOrFile::Directory { pos_children } => Some(pos_children),
            _ => None,
        }
    }

    pub fn file_data(&self) -> (r: Option<(StreamOffset, u32)>)
        ensures
            r == (match self.kind {
                DirectoryOrFile::File { pos_data, size } => Some((pos_data, size)),
                _ => None,
            }),
    {
        match self.kind {
            DirectoryOrFile::File { pos_data, size } => Some((pos_data, size)),
            _ => None,
        }
    }

    /// Points a file entry at new data. Directories are refused.
    pub fn set_file_data(&mut self, pos_data: StreamOffset, size: u32) -> (r: Result<(), ()>)
        ensures
            r is Ok <==> old(self).kind is File,
            r is Ok ==> final(self).kind == (DirectoryOrFile::File { pos_data, size }),
            r is Err ==> final(self).kind == old(self).kind,
            final(self).name == old(self).name,
            final(self).access_time == old(self).access_time,
            final(self).create_time == old(self).create_time,
            final(self).modify_time == old(self).modify_time,
    {
        match self.kind {
            DirectoryOrFile::File { .. } => {
                self.kind = DirectoryOrFile::File { pos_data, size };
                Ok(())
            },
            _ => Err(()),
        }
    }
}

/// The offsets an entry holds are nonzero.
pub open spec fn entry_wf(e: PackEntry) -> bool {
    &&& (e.next_block matches Some(b) ==> b.0 != 0)
    &&& (e.entry matches Some(ne) ==> match ne.kind {
        DirectoryOrFile::Directory { pos_children } => pos_children.0 != 0,
        DirectoryOrFile::File { pos_data, .. } => pos_data.0 != 0,
    })
}

/// The name of a non-empty entry.
pub open spec fn entry_name(e: PackEntry) -> Option<Seq<char>> {
    match e.entry {
        Some(ne) => Some(ne.name@),
        None => None,
    }
}

/// The chain a directory entry points at.
pub open spec fn entry_children(e: PackEntry) -> Option<ChainOffset> {
    match e.entry {
        Some(ne) => match ne.kind {
            DirectoryOrFile::Directory { pos_children } => Some(pos_children),
            _ => None,
        },
        None => None,
    }
}

impl Default for PackEntry {
    /// An empty entry without a link.
    fn default() -> (r: PackEntry)
        ensures
            r.entry is None,
            r.next_block is None,
    {
        PackEntry { entry: None, next_block: None }
    }
}

impl PackEntry {
    pub fn new_directory(name: &str, pos_children: ChainOffset, next_block: Option<BlockOffset>) -> (r: PackEntry)
        ensures
            r.entry matches Some(ne) && ne.name@ == name@ && ne.kind == (DirectoryOrFile::Directory { pos_children })
                && ne.access_time == FILETIME::from_ticks(crate::filetime::MS_EPOCH)
                && ne.create_time == FILETIME::from_ticks(crate::filetime::MS_EPOCH)
                && ne.modify_time == FILETIME::from_ticks(crate::filetime::MS_EPOCH),
            r.next_block == next_block,
    {
        PackEntry {
            entry: Some(NonEmptyEntry {
                kind: DirectoryOrFile::Directory { pos_children },
                name: name.to_owned(),
                access_time: FILETIME::default(),
                create_time: FILETIME::default(),
                modify_time: FILETIME::default(),
            }),
            next_block,
        }
    }

    pub fn new_file(name: &str, pos_data: StreamOffset, size: u32, next_block: Option<BlockOffset>) -> (r: PackEntry)
        ensures
            r.entry matches Some(ne) && ne.name@ == name@ && ne.kind == (DirectoryOrFile::File { pos_data, size })
                && ne.access_time == FILETIME::from_ticks(crate::filetime::MS_EPOCH)
                && ne.create_time == FILETIME::from_ticks(crate::filetime::MS_EPOCH)
                && ne.modify_time == FILETIME::from_ticks(crate::filetime::MS_EPOCH),
            r.next_block == next_block,
    {
        PackEntry {
            entry: Some(NonEmptyEntry {
                kind: DirectoryOrFile::File { pos_data, size },
                name: name.to_owned(),
                access_time: FILETIME::default(),
                create_time: FILETIME::default(),
                modify_time: FILETIME::default(),
            }),
            next_block,
        }
    }

    pub fn new_empty(next_block: Option<BlockOffset>) -> (r: PackEntry)
        ensures
            r.entry is None,
            r.next_block == next_block,
    {
        PackEntry { entry: None, next_block }
    }

    pub fn as_non_empty(&self) -> (r: Option<&NonEmptyEntry>)
        ensures
            r == (match self.entry { Some(ne) => Some(&ne), None => None }),
    {
        match &self.entry {
            Some(ne) => Some(ne),
            None => None,
        }
    }

    pub fn as_non_empty_mut(&mut self) -> (r: Option<&mut NonEmptyEntry>)
        ensures
            old(self).entry is None ==> r is None && *final(self) == *old(self),
            old(self).entry matches Some(ne) ==> (r matches Some(m) && *m == ne
                && final(self).entry == Some(*final(m))
                && final(self).next_block == old(self).next_block),
    {
        match &mut self.entry {
            Some(ne) => Some(ne),
            None => None,
        }
    }

    pub fn is_directory(&self) -> (r: bool)
        ensures
            r == (self.entry matches Some(ne) && ne.kind is Directory),
    {
        match &self.entry {
            Some(ne) => ne.is_directory(),
            None => false,
        }
    }

    pub fn is_file(&self) -> (r: bool)
        ensures
            r == (self.entry matches Some(ne) && ne.kind is File),
    {
        match &self.entry {
            Some(ne) => ne.is_file(),
            None => false,
        }
    }

    /// Empties the entry, keeping its link, and returns what it was.
    pub fn clear(&mut self) -> (r: PackEntry)
        ensures
            r == *old(self),
            final(self).entry is None,
            final(self).next_block == old(self).next_block,
    {
        let nb = self.next_block;
        let mut e = PackEntry::new_empty(nb);
        std::mem::swap(self, &mut e);
        e
    }

    /// The chain a directory entry points at.
    pub fn children(&self) -> (r: Option<ChainOffset>)
        ensures
            r == entry_children(*self),
    {
        match &self.entry {
            Some(ne) => ne.directory_children_offset(),
            None => None,
        }
    }

    pub fn next_block(&self) -> (r: Option<BlockOffset>)
        ensures
            r == self.next_block,
    {
        self.next_block
    }

    pub fn set_next_block(&mut self, nb: BlockOffset)
        ensures
            final(self).next_block == Some(nb),
            final(self).entry == old(self).entry,
    {
        self.next_block = Some(nb);
    }

    pub fn name(&self) -> (r: Option<&str>)
        ensures
            r is Some <==> self.entry is Some,
            r matches Some(s) ==> Some(s@) == entry_name(*self),
    {
        match &self.entry {
            Some(ne) => Some(ne.name.as_str()),
            None => None,
        }
    }

    /// Whether this entry is not empty and its name equals `other` ignoring ASCII case.
    pub fn name_eq_ignore_ascii_case(&self, other: &str) -> (r: bool)
        ensures
            r == entry_name_matches(*self, other.spec_bytes()),
    {
        match &self.entry {
            Some(ne) => str_eq_ignore_ascii_case(ne.name.as_str(), other),
            None => false,
        }
    }

    pub fn is_empty(&self) -> (r: bool)
        ensures
            r == (self.entry is None),
    {
        self.entry.is_none()
    }
}

/// Whether `e` is a file entry.
pub open spec fn entry_is_file(e: PackEntry) -> bool {
    e.entry matches Some(ne) && ne.kind is File
}

/// Whether `e` is a directory entry.
pub open spec fn entry_is_dir(e: PackEntry) -> bool {
    e.entry matches Some(ne) && ne.kind is Directory
}

/// Whether `e` is not empty and its name equals `name` ignoring ASCII case.
pub open spec fn entry_name_matches(e: PackEntry, name: Seq<u8>) -> bool {
    e.entry matches Some(ne) && eq_ignore_ascii_case(name_bytes(ne.name@), name)
}


/// The index of the first zero byte of `s`, or its length when there is none.
pub open spec fn first_zero(s: Seq<u8>) -> int
    decreases s.len(),
{
    if s.len() == 0 {
        0
    } else if s[0] == 0 {
        0
    } else {
        1 + first_zero(s.drop_first())
    }
}

/// The stored name of an entry: its 81 name bytes up to the first zero.
pub open spec fn name_field(b: Seq<u8>) -> Seq<u8> {
    let s = b.subrange(1, 82);
    s.take(first_zero(s))
}

/// The FILETIME stored little-endian at `k`.
pub open spec fn filetime_at(b: Seq<u8>, k: int) -> FILETIME {
    FILETIME {
        dwLowDateTime: le_uint(b.subrange(k, k + 4)) as u32,
        dwHighDateTime: le_uint(b.subrange(k + 4, k + 8)) as u32,
    }
}

/// The position field of an entry's bytes.
pub open spec fn position_field(b: Seq<u8>) -> nat {
    le_uint(b.subrange(106, 114))
}

/// The size field of an entry's bytes.
pub open spec fn size_field(b: Seq<u8>) -> nat {
    le_uint(b.subrange(114, 118))
}

/// The link field of an entry's bytes.
pub open spec fn next_block_field(b: Seq<u8>) -> nat {
    le_uint(b.subrange(118, 126))
}

/// Whether 128 bytes describe a valid entry: empty, or a directory or file with a nonzero
/// position.
pub open spec fn entry_parse_ok(b: Seq<u8>) -> bool {
    b[0] == TY_EMPTY || ((b[0] == TY_DIRECTORY || b[0] == TY_FILE) && position_field(b) != 0)
}

/// `e` is the entry that the 128 bytes `b` describe.
pub open spec fn entry_parsed_from(e: PackEntry, b: Seq<u8>) -> bool {
    let next = next_block_field(b);
    &&& e.next_block == (if next == 0 { None } else { Some(BlockOffset(next as u64)) })
    &&& if b[0] == TY_EMPTY {
        e.entry is None
    } else {
        e.entry matches Some(ne) && ne.name@ == euc_kr_decode(name_field(b))
            && (is_ascii_bytes(name_field(b)) ==> name_bytes(ne.name@) == name_field(b)) && ne.access_time
            == filetime_at(b, 82) && ne.create_time == filetime_at(b, 90) && ne.modify_time
            == filetime_at(b, 98) && ne.kind == (if b[0] == TY_DIRECTORY {
            DirectoryOrFile::Directory { pos_children: ChainOffset(position_field(b) as u64) }
        } else {
            DirectoryOrFile::File {
                pos_data: StreamOffset(position_field(b) as u64),
                size: size_field(b) as u32,
            }
        })
    }
}

/// The name bytes an entry stores for `name`: its EUC-KR encoding, which for an ASCII name is
/// the name's own bytes, or nothing for other names too long to encode.
pub open spec fn stored_name(name: Seq<char>) -> Seq<u8> {
    if is_ascii_bytes(name_bytes(name)) {
        name_bytes(name)
    } else if name_bytes(name).len() < NAME_ENCODE_LIMIT {
        euc_kr_encode(name)
    } else {
        Seq::empty()
    }
}

/// A name stored as its own bytes that comes back as it was: ASCII, at most 80 bytes, and
/// without a zero byte.
pub open spec fn plain_name(name: Seq<char>) -> bool {
    let b = name_bytes(name);
    &&& is_ascii_bytes(b)
    &&& b.len() <= NAME_STORED
    &&& forall|i: int| 0 <= i < b.len() ==> #[trigger] b[i] != 0
}

/// Whether every byte of `b` is ASCII.
fn ascii_only(b: &[u8]) -> (r: bool)
    ensures
        r == is_ascii_bytes(b@),
{
    let mut i: usize = 0;
    while i < b.len()
        invariant
            i <= b@.len(),
            forall|j: int| 0 <= j < i ==> #[trigger] b@[j] < 0x80,
        decreases b@.len() - i,
    {
        if b[i] >= 0x80 {
            return false;
        }
        i = i + 1;
    }
    true
}

pub open spec fn kind_type_byte(k: DirectoryOrFile) -> u8 {
    match k {
        DirectoryOrFile::Directory { .. } => TY_DIRECTORY,
        DirectoryOrFile::File { .. } => TY_FILE,
    }
}

pub open spec fn kind_position(k: DirectoryOrFile) -> u64 {
    match k {
        DirectoryOrFile::Directory { pos_children } => pos_children.0,
        DirectoryOrFile::File { pos_data, .. } => pos_data.0,
    }
}

pub open spec fn kind_size(k: DirectoryOrFile) -> u32 {
    match k {
        DirectoryOrFile::Directory { .. } => 0,
        DirectoryOrFile::File { size, .. } => size,
    }
}

pub open spec fn next_block_value(e: PackEntry) -> u64 {
    match e.next_block {
        Some(b) => b.0,
        None => 0,
    }
}

pub open spec fn min_nat(a: int, b: int) -> int {
    if a < b { a } else { b }
}

/// Byte `i` of what writing `e` over the 128 bytes `old` leaves. A non-empty entry keeps the
/// name bytes between the end of its (at most 80 byte) name and byte 81; an empty entry keeps
/// everything before the position field.
pub open spec fn written_byte(old: Seq<u8>, e: PackEntry, i: int) -> u8 {
    if i >= 118 {
        if i < 126 { le_bytes(next_block_value(e) as nat, 8)[i - 118] } else { 0u8 }
    } else {
        match e.entry {
            Some(ne) => {
                let enc = stored_name(ne.name@);
                let m = min_nat(enc.len() as int, 80);
                if i == 0 {
                    kind_type_byte(ne.kind)
                } else if i < 1 + m {
                    enc[i - 1]
                } else if i < 81 {
                    old[i]
                } else if i == 81 {
                    0u8
                } else if i < 86 {
                    le_bytes(ne.access_time.dwLowDateTime as nat, 4)[i - 82]
                } else if i < 90 {
                    le_bytes(ne.access_time.dwHighDateTime as nat, 4)[i - 86]
                } else if i < 94 {
                    le_bytes(ne.create_time.dwLowDateTime as nat, 4)[i - 90]
                } else if i < 98 {
                    le_bytes(ne.create_time.dwHighDateTime as nat, 4)[i - 94]
                } else if i < 102 {
                    le_bytes(ne.modify_time.dwLowDateTime as nat, 4)[i - 98]
                } else if i < 106 {
                    le_bytes(ne.modify_time.dwHighDateTime as nat, 4)[i - 102]
                } else if i < 114 {
                    le_bytes(kind_position(ne.kind) as nat, 8)[i - 106]
                } else {
                    le_bytes(kind_size(ne.kind) as nat, 4)[i - 114]
                }
            },
            None => {
                if i == 0 {
                    TY_EMPTY
                } else if i < 106 {
                    old[i]
                } else if i < 114 {
                    le_bytes(0, 8)[i - 106]
                } else {
                    le_bytes(0, 4)[i - 114]
                }
            },
        }
    }
}

/// What writing `e` over the 128 bytes `old` leaves.
pub open spec fn entry_written(old: Seq<u8>, e: PackEntry) -> Seq<u8> {
    Seq::new(128, |i: int| written_byte(old, e, i))
}

/// Finds the first zero among `n` bytes of `b` from `start`.
fn find_zero(b: &[u8], start: usize, n: usize) -> (r: usize)
    requires
        start + n <= b@.len(),
    ensures
        r as int == first_zero(b@.subrange(start as int, start + n)),
        r <= n,
{
    let mut i: usize = 0;
    let blen = b.len();
    while i < n
        invariant
            blen == b@.len(),
            start + n <= b@.len(),
            i <= n,
            forall|j: int| 0 <= j < i ==> #[trigger] b@[start + j] != 0,
        decreases n - i,
    {
        if b[start + i] == 0 {
            proof {
                let s = b@.subrange(start as int, start + n);
                assert forall|j: int| 0 <= j < i implies s[j] != 0 by { assert(b@[start + j] != 0); }
                lemma_first_zero_at(s, i as int);
            }
            return i;
        }
        i = i + 1;
    }
    proof {
        let s = b@.subrange(start as int, start + n);
        assert forall|j: int| 0 <= j < n implies s[j] != 0 by { assert(b@[start + j] != 0); }
        lemma_first_zero_at(s, n as int);
    }
    n
}

/// `first_zero` is the first index with a zero byte.
proof fn lemma_first_zero_at(s: Seq<u8>, k: int)
    requires
        0 <= k <= s.len(),
        forall|j: int| 0 <= j < k ==> s[j] != 0,
        k < s.len() ==> s[k] == 0,
    ensures
        first_zero(s) == k,
    decreases k,
{
    if k > 0 {
        assert forall|j: int| 0 <= j < k - 1 implies s.drop_first()[j] != 0 by {
            assert(s.drop_first()[j] == s[j + 1]);
        }
        lemma_first_zero_at(s.drop_first(), k - 1);
    }
}

impl PackEntry {
    /// Reads an entry from its 128 bytes.
    pub fn parse(buffer: &[u8; 128]) -> (r: Result<PackEntry, InvalidPackEntryType>)
        ensures
            r is Ok <==> entry_parse_ok(buffer@),
            r matches Ok(e) ==> entry_parsed_from(e, buffer@) && entry_wf(e),
            r matches Err(t) ==> t.0 == buffer@[0],
    {
        proof { crate::bytes::lemma_pow256_values(); }
        let ty = buffer[0];
        let next_raw = read_le(buffer, 118, 8);
        let next_block = if next_raw == 0 { None } else { Some(BlockOffset(next_raw)) };
        if ty == TY_EMPTY {
            return Ok(PackEntry { entry: None, next_block });
        }
        if ty != TY_DIRECTORY && ty != TY_FILE {
            return Err(InvalidPackEntryType(ty));
        }
        let end = find_zero(buffer, 1, 81);
        let raw_name = vstd::slice::slice_subrange(buffer, 1, 1 + end);
        proof {
            assert(raw_name@ =~= name_field(buffer@));
        }
        let name = decode_euc_kr(raw_name);
        let access_time = read_filetime(buffer, 82);
        let create_time = read_filetime(buffer, 90);
        let modify_time = read_filetime(buffer, 98);
        let position = read_le(buffer, 106, 8);
        let size = read_le(buffer, 114, 4);
        proof {
            crate::bytes::lemma_le_uint_bound(buffer@.subrange(114, 118));
        }
        if position == 0 {
            return Err(InvalidPackEntryType(ty));
        }
        let kind = if ty == TY_DIRECTORY {
            DirectoryOrFile::Directory { pos_children: ChainOffset(position) }
        } else {
            DirectoryOrFile::File { pos_data: StreamOffset(position), size: size as u32 }
        };
        Ok(PackEntry {
            entry: Some(NonEmptyEntry { kind, name, access_time, create_time, modify_time }),
            next_block,
        })
    }

    /// Writes this entry over the 128 bytes of `buffer`.
    pub fn write_to(&self, buffer: &mut [u8; 128])
        ensures
            final(buffer)@ == entry_written(old(buffer)@, *self),
    {
        let ghost orig = buffer@;
        let ghost target = entry_written(orig, *self);
        proof {
            crate::bytes::lemma_le_bytes_len(next_block_value(*self) as nat, 8);
            crate::bytes::lemma_le_bytes_len(0, 8);
            crate::bytes::lemma_le_bytes_len(0, 4);
        }
        match &self.entry {
            Some(entry) => {
                let ghost b0 = buffer@;
                buffer[0] = match entry.kind {
                    DirectoryOrFile::Directory { .. } => TY_DIRECTORY,
                    DirectoryOrFile::File { .. } => TY_FILE,
                };
                proof { lemma_written_extend(b0, buffer@, target, orig, 0, 1); }
                let name_str = entry.name.as_str();
                let name_raw = name_str.as_bytes();
                let ascii = ascii_only(name_raw);
                let name_len = name_raw.len();
                proof {
                    assert(name_raw@ == name_str.spec_bytes());
                    assert(name_len == name_str.spec_bytes().len());
                    assert(name_str@ == entry.name@);
                }
                let name: Vec<u8> = if ascii || name_len < NAME_ENCODE_LIMIT {
                    encode_euc_kr(name_str)
                } else {
                    Vec::new()
                };
                proof {
                    assert(name@ =~= stored_name(entry.name@));
                }
                let m = if name.len() < NAME_STORED { name.len() } else { NAME_STORED };
                let ghost b1 = buffer@;
                copy_bytes(buffer, 1, name.as_slice(), 0, m);
                proof {
                    assert forall|j: int| 0 <= j < m implies buffer@[1 + j] == #[trigger] target[1 + j] by {
                        assert(buffer@.subrange(1, 1 + m)[j] == name@.subrange(0, m as int)[j]);
                    }
                    lemma_written_extend(b1, buffer@, target, orig, 1, m as int);
                    lemma_written_extend(buffer@, buffer@, target, orig, 1 + m, 80 - m);
                }
                let ghost b2 = buffer@;
                buffer[81] = 0;
                proof { lemma_written_extend(b2, buffer@, target, orig, 81, 1); }
                write_filetime(buffer, 82, entry.access_time, Ghost(target), Ghost(orig));
                write_filetime(buffer, 90, entry.create_time, Ghost(target), Ghost(orig));
                write_filetime(buffer, 98, entry.modify_time, Ghost(target), Ghost(orig));
                match entry.kind {
                    DirectoryOrFile::Directory { pos_children } => {
                        put_le(buffer, 106, 8, pos_children.0, Ghost(target), Ghost(orig));
                        put_le(buffer, 114, 4, 0, Ghost(target), Ghost(orig));
                    },
                    DirectoryOrFile::File { pos_data, size } => {
                        put_le(buffer, 106, 8, pos_data.0, Ghost(target), Ghost(orig));
                        put_le(buffer, 114, 4, size as u64, Ghost(target), Ghost(orig));
                    },
                }
            },
            None => {
                let ghost b0 = buffer@;
                buffer[0] = TY_EMPTY;
                proof {
                    lemma_written_extend(b0, buffer@, target, orig, 0, 1);
                    lemma_written_extend(buffer@, buffer@, target, orig, 1, 105);
                }
                put_le(buffer, 106, 8, 0, Ghost(target), Ghost(orig));
                put_le(buffer, 114, 4, 0, Ghost(target), Ghost(orig));
            },
        }
        let next = match self.next_block {
            Some(b) => b.0,
            None => 0,
        };
        put_le(buffer, 118, 8, next, Ghost(target), Ghost(orig));
        proof { crate::bytes::lemma_le_bytes_zero(2); }
        put_le(buffer, 126, 2, 0, Ghost(target), Ghost(orig));
        proof {
            assert(buffer@ =~= target);
        }
    }
}

/// Reads the FILETIME stored at `k`.
fn read_filetime(buffer: &[u8; 128], k: usize) -> (r: FILETIME)
    requires
        k + 8 <= 128,
    ensures
        r == filetime_at(buffer@, k as int),
{
    let lo = read_le(buffer, k, 4);
    let hi = read_le(buffer, k + 4, 4);
    proof {
        crate::bytes::lemma_le_uint_bound(buffer@.subrange(k as int, k + 4));
        crate::bytes::lemma_le_uint_bound(buffer@.subrange(k + 4, k + 8));
        crate::bytes::lemma_pow256_values();
    }
    FILETIME { dwLowDateTime: lo as u32, dwHighDateTime: hi as u32 }
}

/// Writes the next `n` target bytes at `k` as the little-endian value `x`.
fn put_le(buffer: &mut [u8; 128], k: usize, n: usize, x: u64, Ghost(target): Ghost<Seq<u8>>, Ghost(orig): Ghost<Seq<u8>>)
    requires
        k + n <= 128,
        written_up_to(old(buffer)@, target, orig, k as int),
        forall|j: int| 0 <= j < n ==> #[trigger] target[k + j] == le_bytes(x as nat, n as nat)[j],
    ensures
        written_up_to(final(buffer)@, target, orig, k + n),
{
    let ghost before = buffer@;
    write_le(buffer, k, n, x);
    proof {
        assert forall|j: int| 0 <= j < n implies buffer@[k + j] == #[trigger] target[k + j] by {
            assert(buffer@.subrange(k as int, k + n)[j] == le_bytes(x as nat, n as nat)[j]);
        }
        lemma_written_extend(before, buffer@, target, orig, k as int, n as int);
    }
}

/// Writes the next 8 target bytes at `k` as the FILETIME `t`.
fn write_filetime(buffer: &mut [u8; 128], k: usize, t: FILETIME, Ghost(target): Ghost<Seq<u8>>, Ghost(orig): Ghost<Seq<u8>>)
    requires
        k + 8 <= 128,
        written_up_to(old(buffer)@, target, orig, k as int),
        forall|j: int| 0 <= j < 4 ==> #[trigger] target[k + j] == le_bytes(t.dwLowDateTime as nat, 4)[j],
        forall|j: int| 0 <= j < 4 ==> #[trigger] target[k + 4 + j] == le_bytes(t.dwHighDateTime as nat, 4)[j],
    ensures
        written_up_to(final(buffer)@, target, orig, k + 8),
{
    put_le(buffer, k, 4, t.dwLowDateTime as u64, Ghost(target), Ghost(orig));
    put_le(buffer, k + 4, 4, t.dwHighDateTime as u64, Ghost(target), Ghost(orig));
}


/// Two entries hold the same name, times, kind and link.
pub open spec fn entries_match(a: PackEntry, b: PackEntry) -> bool {
    &&& a.next_block == b.next_block
    &&& match (a.entry, b.entry) {
        (None, None) => true,
        (Some(x), Some(y)) => x.name@ == y.name@ && x.kind == y.kind && x.access_time
            == y.access_time && x.create_time == y.create_time && x.modify_time == y.modify_time,
        _ => false,
    }
}

/// A name survives storage: its stored bytes fit the 80 bytes written, hold no zero byte, and
/// decode back to it.
pub open spec fn name_roundtrips(name: Seq<char>) -> bool {
    let enc = stored_name(name);
    &&& enc.len() <= NAME_STORED
    &&& forall|i: int| 0 <= i < enc.len() ==> #[trigger] enc[i] != 0
    &&& euc_kr_decode(enc) == name
}

proof fn lemma_filetime_roundtrip(w: Seq<u8>, k: int, t: FILETIME)
    requires
        0 <= k,
        k + 8 <= w.len(),
        w.subrange(k, k + 4) == le_bytes(t.dwLowDateTime as nat, 4),
        w.subrange(k + 4, k + 8) == le_bytes(t.dwHighDateTime as nat, 4),
    ensures
        filetime_at(w, k) == t,
{
    crate::bytes::lemma_pow256_values();
    crate::bytes::lemma_le_uint_of_le_bytes(t.dwLowDateTime as nat, 4);
    crate::bytes::lemma_le_uint_of_le_bytes(t.dwHighDateTime as nat, 4);
}

/// Writing an entry and parsing the bytes gives back the entry, when its offsets are nonzero,
/// its name survives storage, and the name area is zero after the name (as in a zeroed
/// buffer).
pub proof fn lemma_entry_parse_of_write(e: PackEntry, old: Seq<u8>)
    requires
        entry_wf(e),
        old.len() == 128,
        e.entry matches Some(ne) ==> plain_name(ne.name@) || name_roundtrips(ne.name@),
        e.entry matches Some(ne) ==> (stored_name(ne.name@).len() < NAME_STORED ==> old[1
            + stored_name(ne.name@).len() as int] == 0),
    ensures
        entry_parse_ok(entry_written(old, e)),
        forall|e2: PackEntry| #[trigger]
            entry_parsed_from(e2, entry_written(old, e)) ==> entries_match(e2, e),
{
    let w = entry_written(old, e);
    crate::bytes::lemma_pow256_values();
    crate::bytes::lemma_le_bytes_len(next_block_value(e) as nat, 8);
    crate::bytes::lemma_le_uint_of_le_bytes(next_block_value(e) as nat, 8);
    assert(w.subrange(118, 126) =~= le_bytes(next_block_value(e) as nat, 8));
    match e.entry {
        Some(ne) => {
            let enc = stored_name(ne.name@);
            let m = enc.len() as int;
            let s = w.subrange(1, 82);
            assert forall|j: int| 0 <= j < m implies s[j] != 0 by {
                assert(s[j] == enc[j]);
            }
            lemma_first_zero_at(s, m);
            assert(name_field(w) =~= enc);
            if plain_name(ne.name@) {
                assert forall|e2: PackEntry| #[trigger] entry_parsed_from(e2, w) implies e2.entry matches Some(ne2)
                    && ne2.name@ == ne.name@ by {
                    let ne2 = e2.entry->0;
                    vstd::utf8::encode_utf8_decode_utf8(ne2.name@);
                    vstd::utf8::encode_utf8_decode_utf8(ne.name@);
                }
            }
            crate::bytes::lemma_le_bytes_len(ne.access_time.dwLowDateTime as nat, 4);
            crate::bytes::lemma_le_bytes_len(ne.access_time.dwHighDateTime as nat, 4);
            crate::bytes::lemma_le_bytes_len(ne.create_time.dwLowDateTime as nat, 4);
            crate::bytes::lemma_le_bytes_len(ne.create_time.dwHighDateTime as nat, 4);
            crate::bytes::lemma_le_bytes_len(ne.modify_time.dwLowDateTime as nat, 4);
            crate::bytes::lemma_le_bytes_len(ne.modify_time.dwHighDateTime as nat, 4);
            assert(w.subrange(82, 86) =~= le_bytes(ne.access_time.dwLowDateTime as nat, 4));
            assert(w.subrange(86, 90) =~= le_bytes(ne.access_time.dwHighDateTime as nat, 4));
            assert(w.subrange(90, 94) =~= le_bytes(ne.create_time.dwLowDateTime as nat, 4));
            assert(w.subrange(94, 98) =~= le_bytes(ne.create_time.dwHighDateTime as nat, 4));
            assert(w.subrange(98, 102) =~= le_bytes(ne.modify_time.dwLowDateTime as nat, 4));
            assert(w.subrange(102, 106) =~= le_bytes(ne.modify_time.dwHighDateTime as nat, 4));
            lemma_filetime_roundtrip(w, 82, ne.access_time);
            lemma_filetime_roundtrip(w, 90, ne.create_time);
            lemma_filetime_roundtrip(w, 98, ne.modify_time);
            crate::bytes::lemma_le_bytes_len(kind_position(ne.kind) as nat, 8);
            crate::bytes::lemma_le_bytes_len(kind_size(ne.kind) as nat, 4);
            crate::bytes::lemma_le_uint_of_le_bytes(kind_position(ne.kind) as nat, 8);
            crate::bytes::lemma_le_uint_of_le_bytes(kind_size(ne.kind) as nat, 4);
            assert(w.subrange(106, 114) =~= le_bytes(kind_position(ne.kind) as nat, 8));
            assert(w.subrange(114, 118) =~= le_bytes(kind_size(ne.kind) as nat, 4));
        },
        None => {},
    }
}

/// The 64-bit value of a FILETIME stored at `k`, read whole, is its tick count.
proof fn lemma_filetime_at_ticks(b: Seq<u8>, k: int)
    requires
        0 <= k,
        k + 8 <= b.len(),
    ensures
        filetime_at(b, k).ticks() == le_uint(b.subrange(k, k + 8)),
{
    crate::bytes::lemma_pow256_values();
    crate::bytes::lemma_le_uint_bound(b.subrange(k, k + 4));
    crate::bytes::lemma_le_uint_bound(b.subrange(k + 4, k + 8));
    assert(b.subrange(k, k + 8) =~= b.subrange(k, k + 4) + b.subrange(k + 4, k + 8));
    crate::bytes::lemma_le_uint_concat(b.subrange(k, k + 4), b.subrange(k + 4, k + 8));
    let lo = le_uint(b.subrange(k, k + 4));
    let hi = le_uint(b.subrange(k + 4, k + 8));
    let f = filetime_at(b, k);
    assert(f.dwLowDateTime as nat == lo);
    assert(f.dwHighDateTime as nat == hi);
    assert(b.subrange(k, k + 4).len() == 4);
    assert(hi * 0x1_0000_0000 == 0x1_0000_0000 * hi) by (nonlinear_arith);
}

/// The times of a parsed entry are the little-endian 64-bit values stored in its bytes: the
/// access time at 82..90, the creation time at 90..98 and the modification time at 98..106.
pub proof fn lemma_parsed_entry_times(e: PackEntry, b: Seq<u8>)
    requires
        b.len() == 128,
        entry_parsed_from(e, b),
        e.entry is Some,
    ensures
        e.entry->0.access_time.ticks() == le_uint(b.subrange(82, 90)),
        e.entry->0.create_time.ticks() == le_uint(b.subrange(90, 98)),
        e.entry->0.modify_time.ticks() == le_uint(b.subrange(98, 106)),
{
    lemma_filetime_at_ticks(b, 82);
    lemma_filetime_at_ticks(b, 90);
    lemma_filetime_at_ticks(b, 98);
}

/// Writing an entry stores its access time at bytes 82..90, its creation time at 90..98 and
/// its modification time at 98..106, each as a little-endian 64-bit value.
pub proof fn lemma_written_entry_times(old: Seq<u8>, e: PackEntry)
    requires
        old.len() == 128,
        e.entry is Some,
    ensures
        le_uint(entry_written(old, e).subrange(82, 90)) == e.entry->0.access_time.ticks(),
        le_uint(entry_written(old, e).subrange(90, 98)) == e.entry->0.create_time.ticks(),
        le_uint(entry_written(old, e).subrange(98, 106)) == e.entry->0.modify_time.ticks(),
{
    let w = entry_written(old, e);
    let ne = e.entry->0;
    crate::bytes::lemma_pow256_values();
    crate::bytes::lemma_le_bytes_len(ne.access_time.dwLowDateTime as nat, 4);
    crate::bytes::lemma_le_bytes_len(ne.access_time.dwHighDateTime as nat, 4);
    crate::bytes::lemma_le_bytes_len(ne.create_time.dwLowDateTime as nat, 4);
    crate::bytes::lemma_le_bytes_len(ne.create_time.dwHighDateTime as nat, 4);
    crate::bytes::lemma_le_bytes_len(ne.modify_time.dwLowDateTime as nat, 4);
    crate::bytes::lemma_le_bytes_len(ne.modify_time.dwHighDateTime as nat, 4);
    assert(w.subrange(82, 86) =~= le_bytes(ne.access_time.dwLowDateTime as nat, 4));
    assert(w.subrange(86, 90) =~= le_bytes(ne.access_time.dwHighDateTime as nat, 4));
    assert(w.subrange(90, 94) =~= le_bytes(ne.create_time.dwLowDateTime as nat, 4));
    assert(w.subrange(94, 98) =~= le_bytes(ne.create_time.dwHighDateTime as nat, 4));
    assert(w.subrange(98, 102) =~= le_bytes(ne.modify_time.dwLowDateTime as nat, 4));
    assert(w.subrange(102, 106) =~= le_bytes(ne.modify_time.dwHighDateTime as nat, 4));
    lemma_filetime_roundtrip(w, 82, ne.access_time);
    lemma_filetime_roundtrip(w, 90, ne.create_time);
    lemma_filetime_roundtrip(w, 98, ne.modify_time);
    lemma_filetime_at_ticks(w, 82);
    lemma_filetime_at_ticks(w, 90);
    lemma_filetime_at_ticks(w, 98);
}

/// The in-file layout of an entry, field by field.
pub struct RawPackFileEntry {
    pub ty: u8,
    pub name: [u8; 81],
    pub access: FILETIME,
    pub create: FILETIME,
    pub modify: FILETIME,
    pub position: u64,
    pub size: u32,
    pub next_block: u64,
    pub padding: [u8; 2],
}

/// The 128 bytes a raw entry occupies.
pub open spec fn raw_entry_bytes(r: RawPackFileEntry) -> Seq<u8> {
    seq![r.ty] + r.name@ + le_bytes(r.access.dwLowDateTime as nat, 4) + le_bytes(
        r.access.dwHighDateTime as nat,
        4,
    ) + le_bytes(r.create.dwLowDateTime as nat, 4) + le_bytes(r.create.dwHighDateTime as nat, 4)
        + le_bytes(r.modify.dwLowDateTime as nat, 4) + le_bytes(r.modify.dwHighDateTime as nat, 4)
        + le_bytes(r.position as nat, 8) + le_bytes(r.size as nat, 4) + le_bytes(
        r.next_block as nat,
        8,
    ) + r.padding@
}

impl RawPackFileEntry {
    /// The 128 bytes of this raw entry, fields in order, integers little-endian.
    pub fn to_bytes(&self) -> (r: [u8; 128])
        ensures
            r@ == raw_entry_bytes(*self),
    {
        let mut b = [0u8; 128];
        b[0] = self.ty;
        copy_bytes(&mut b, 1, &self.name, 0, 81);
        let ghost b1 = b@;
        write_le(&mut b, 82, 4, self.access.dwLowDateTime as u64);
        let ghost b2 = b@;
        write_le(&mut b, 86, 4, self.access.dwHighDateTime as u64);
        let ghost b3 = b@;
        write_le(&mut b, 90, 4, self.create.dwLowDateTime as u64);
        let ghost b4 = b@;
        write_le(&mut b, 94, 4, self.create.dwHighDateTime as u64);
        let ghost b5 = b@;
        write_le(&mut b, 98, 4, self.modify.dwLowDateTime as u64);
        let ghost b6 = b@;
        write_le(&mut b, 102, 4, self.modify.dwHighDateTime as u64);
        let ghost b7 = b@;
        write_le(&mut b, 106, 8, self.position);
        let ghost b8 = b@;
        write_le(&mut b, 114, 4, self.size as u64);
        let ghost b9 = b@;
        write_le(&mut b, 118, 8, self.next_block);
        let ghost b10 = b@;
        copy_bytes(&mut b, 126, &self.padding, 0, 2);
        proof {
            let t = raw_entry_bytes(*self);
            crate::bytes::lemma_le_bytes_len(self.access.dwLowDateTime as nat, 4);
            crate::bytes::lemma_le_bytes_len(self.access.dwHighDateTime as nat, 4);
            crate::bytes::lemma_le_bytes_len(self.create.dwLowDateTime as nat, 4);
            crate::bytes::lemma_le_bytes_len(self.create.dwHighDateTime as nat, 4);
            crate::bytes::lemma_le_bytes_len(self.modify.dwLowDateTime as nat, 4);
            crate::bytes::lemma_le_bytes_len(self.modify.dwHighDateTime as nat, 4);
            crate::bytes::lemma_le_bytes_len(self.position as nat, 8);
            crate::bytes::lemma_le_bytes_len(self.size as nat, 4);
            crate::bytes::lemma_le_bytes_len(self.next_block as nat, 8);
            assert forall|j: int| 0 <= j < 128 implies b@[j] == t[j] by {
                if j == 0 {
                } else if j < 82 {
                    assert(b1.subrange(1, 82)[j - 1] == self.name@[j - 1]);
                } else if j < 86 {
                    assert(b2.subrange(82, 86)[j - 82] == le_bytes(self.access.dwLowDateTime as nat, 4)[j - 82]);
                } else if j < 90 {
                    assert(b3.subrange(86, 90)[j - 86] == le_bytes(self.access.dwHighDateTime as nat, 4)[j - 86]);
                } else if j < 94 {
                    assert(b4.subrange(90, 94)[j - 90] == le_bytes(self.create.dwLowDateTime as nat, 4)[j - 90]);
                } else if j < 98 {
                    assert(b5.subrange(94, 98)[j - 94] == le_bytes(self.create.dwHighDateTime as nat, 4)[j - 94]);
                } else if j < 102 {
                    assert(b6.subrange(98, 102)[j - 98] == le_bytes(self.modify.dwLowDateTime as nat, 4)[j - 98]);
                } else if j < 106 {
                    assert(b7.subrange(102, 106)[j - 102] == le_bytes(self.modify.dwHighDateTime as nat, 4)[j - 102]);
                } else if j < 114 {
                    assert(b8.subrange(106, 114)[j - 106] == le_bytes(self.position as nat, 8)[j - 106]);
                } else if j < 118 {
                    assert(b9.subrange(114, 118)[j - 114] == le_bytes(self.size as nat, 4)[j - 114]);
                } else if j < 126 {
                    assert(b10.subrange(118, 126)[j - 118] == le_bytes(self.next_block as nat, 8)[j - 118]);
                } else {
                    assert(b@.subrange(126, 128)[j - 126] == self.padding@[j - 126]);
                }
            }
            assert(b@ =~= t);
        }
        b
    }
}

} // verus!
