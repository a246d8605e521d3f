//! The decisions of file handles: where a seek lands, how much of a write a file takes, and
//! what storing a file's data changes in the index and writes to the stream.

use vstd::prelude::*;
use crate::archive::{OpenError, entry_at, file_created, index_offsets_fit};
use crate::blowfish::Blowfish;
use crate::filetime::FILETIME;
use crate::format::block_chain::{PackBlockChain, chain_block_offsets, chain_entries, chain_wf};
use crate::format::chain_index::{ChainIndex, index_wf};
use crate::format::entry::{DirectoryOrFile, PackEntry, entry_is_file, name_bytes};
use vstd::string::StringSliceAdditionalSpecFns;
use crate::format::{ChainOffset, StreamOffset};
use crate::stream::{apply_write, apply_writes, entry_changed, writes_keep_stream, holds_block, holds_chain, holds_index, index_blocks_apart, lemma_index_entry_write, lemma_write_clear_of_block};
use crate::format::block_chain::lemma_chain_index_bound;
use crate::io::{WriteOp, chain_offsets_fit, cipher_key, cipher_wf, entry_image, entry_stream_offset, write_chain_entry};

verus! {

/// Where a seek is taken from, as `std::io::SeekFrom`.
#[derive(Debug, Clone, Copy, PartialEq, Eq, Structural)]
pub enum SeekFrom {
    Start(u64),
    End(i64),
    Current(i64),
}

/// The position `base + delta`, when it lies in `0..=u64::MAX`.
pub open spec fn offset_position(base: u64, delta: i64) -> Option<u64> {
    if 0 <= base + delta <= u64::MAX {
        Some((base + delta) as u64)
    } else {
        None
    }
}

/// Where a seek from position `pos` of a file of `size` bytes lands.
pub open spec fn seek_target(seek: SeekFrom, pos: u64, size: u64) -> Option<u64> {
    match seek {
        SeekFrom::Start(n) => Some(n),
        SeekFrom::End(n) => offset_position(size, n),
        SeekFrom::Current(n) => offset_position(pos, n),
    }
}

/// The position a seek moves a handle at `pos` of a file of `size` bytes to; `None` for a
/// position before the start or beyond `u64::MAX`. Seeking past the end is allowed.
pub fn seek_position(seek: SeekFrom, pos: u64, size: u64) -> (r: Option<u64>)
    ensures
        r == seek_target(seek, pos, size),
{
    let (base, delta) = match seek {
        SeekFrom::Start(n) => {
            return Some(n);
        },
        SeekFrom::End(n) => (size, n),
        SeekFrom::Current(n) => (pos, n),
    };
    if delta >= 0 {
        base.checked_add(delta as u64)
    } else {
        let back: u64 = (0i128 - delta as i128) as u64;
        base.checked_sub(back)
    }
}

/// How many bytes of a write of `buf_len` bytes a file buffer of `data_len` bytes takes: all
/// of them while the file stays within `u32::MAX` bytes, those up to that size otherwise, and
/// none when the two lengths overflow `usize`.
pub fn accepted_write_len(data_len: usize, buf_len: usize) -> (r: usize)
    requires
        data_len <= u32::MAX,
    ensures
        r == (if data_len + buf_len > usize::MAX {
            0
        } else if data_len + buf_len <= u32::MAX {
            buf_len as int
        } else {
            u32::MAX - data_len
        }),
{
    match data_len.checked_add(buf_len) {
        None => 0,
        Some(new_len) => {
            let max: u64 = 0xFFFF_FFFFu64;
            if (new_len as u64) <= max {
                buf_len
            } else {
                (max - data_len as u64) as usize
            }
        },
    }
}

/// The bytes left to read from position `pos` of a file of `size` bytes: none at or past its
/// end.
pub fn remaining_len(size: u32, pos: u64) -> (r: u64)
    ensures
        r == (if pos < size { size - pos } else { 0 }),
{
    if pos < size as u64 {
        size as u64 - pos
    } else {
        0
    }
}

/// Whether `e` is one of the links a directory holds besides its contents: `.` to itself or
/// `..` to its parent.
pub open spec fn backlink(e: PackEntry) -> bool {
    e.entry matches Some(ne) && ne.kind is Directory && (name_bytes(ne.name@) == seq![46u8]
        || name_bytes(ne.name@) == seq![46u8, 46u8])
}

/// Whether `e` is the link `..` to the parent directory.
pub open spec fn parent_link(e: PackEntry) -> bool {
    e.entry matches Some(ne) && ne.kind is Directory && name_bytes(ne.name@) == seq![46u8, 46u8]
}

/// Whether the entry is the `.` or `..` link of a directory.
pub fn is_backlink(e: &PackEntry) -> (r: bool)
    ensures
        r == backlink(*e),
{
    match &e.entry {
        Some(ne) => {
            if !ne.is_directory() {
                return false;
            }
            let b = ne.name.as_str().as_bytes();
            let one = b.len() == 1 && b[0] == 46u8;
            let two = b.len() == 2 && b[0] == 46u8 && b[1] == 46u8;
            proof {
                assert(b@ == name_bytes(ne.name@));
                assert(one <==> b@ =~= seq![46u8]);
                assert(two <==> b@ =~= seq![46u8, 46u8]);
            }
            one || two
        },
        None => false,
    }
}

/// Whether the entry is the `..` link of a directory.
pub fn is_parent_link(e: &PackEntry) -> (r: bool)
    ensures
        r == parent_link(*e),
{
    match &e.entry {
        Some(ne) => {
            if !ne.is_directory() {
                return false;
            }
            let b = ne.name.as_str().as_bytes();
            let two = b.len() == 2 && b[0] == 46u8 && b[1] == 46u8;
            proof {
                assert(b@ == name_bytes(ne.name@));
                assert(two <==> b@ =~= seq![46u8, 46u8]);
            }
            two
        },
        None => false,
    }
}

/// Where storing `len` bytes of data for the file entry `e` puts them: over its old data when
/// they fit there, otherwise at the end of a stream of `stream_len` bytes.
pub open spec fn data_position(e: PackEntry, len: nat, stream_len: u64) -> u64 {
    match e.entry {
        Some(ne) => match ne.kind {
            DirectoryOrFile::File { pos_data, size } => if len > size {
                stream_len
            } else {
                pos_data.0
            },
            _ => stream_len,
        },
        None => stream_len,
    }
}

/// Whether storing the data of the file entry `e` moves it to the end of the stream.
pub open spec fn data_moves(e: PackEntry, len: nat) -> bool {
    e.entry matches Some(ne) && (ne.kind matches DirectoryOrFile::File { size, .. } && len > size)
}

/// `e` with its modification time set to `time` when one is given.
pub open spec fn with_modify_time(e: PackEntry, time: Option<FILETIME>) -> PackEntry {
    match (e.entry, time) {
        (Some(ne), Some(t)) => PackEntry {
            entry: Some(crate::format::entry::NonEmptyEntry { modify_time: t, ..ne }),
            next_block: e.next_block,
        },
        _ => e,
    }
}

/// `f` is the file entry `e` after its data was stored: `len` bytes at `pos`, its modification
/// time set to `time` when one is given, everything else kept.
pub open spec fn flushed_entry(e: PackEntry, f: PackEntry, pos: u64, len: nat, time: Option<FILETIME>) -> bool {
    &&& f.next_block == e.next_block
    &&& e.entry matches Some(ne) && f.entry matches Some(nf) && {
        &&& nf.name == ne.name
        &&& nf.kind == (DirectoryOrFile::File { pos_data: StreamOffset(pos), size: len as u32 })
        &&& nf.access_time == ne.access_time
        &&& nf.create_time == ne.create_time
        &&& nf.modify_time == (match time {
            Some(t) => t,
            None => ne.modify_time,
        })
    }
}

/// Storing `data` for the file at entry `i` of chain `c` in a stream of `stream_len` bytes took
/// the index from `m0` to `m1` and gave the writes `ops`: the data where
/// [`data_position`] puts it, then the changed entry where it lies.
pub open spec fn file_stored(
    m0: Map<u64, PackBlockChain>,
    m1: Map<u64, PackBlockChain>,
    c: u64,
    i: int,
    data: Seq<u8>,
    stream_len: u64,
    time: Option<FILETIME>,
    key: Option<Seq<u8>>,
    ops: Seq<WriteOp>,
) -> bool {
    let e0 = entry_at(m0, c, i);
    let e1 = entry_at(m1, c, i);
    let pos = data_position(e0, data.len(), stream_len);
    &&& flushed_entry(e0, e1, pos, data.len(), time)
    &&& ops.len() == 2
    &&& ops[0].offset == pos
    &&& ops[0].data@ == data
    &&& ops[1].offset == entry_stream_offset(m1[c], i)
    &&& ops[1].data@ == entry_image(key, e1)
}

/// Stores the data of the file at entry `idx` of chain `chain` in a stream of `stream_len`
/// bytes: its modification time becomes `modify_time` when one is given, the data goes over
/// the old data when it fits there and at the end of the stream otherwise, and the entry takes
/// the new position and size. Returns the writes to perform in order: the data, then the
/// entry. Nothing is stored for empty data. Data that has to move cannot go into an empty
/// stream; the entry then keeps its data and takes only the new time.
pub fn flush_file(
    index: &mut ChainIndex,
    bf: Option<&Blowfish>,
    chain: ChainOffset,
    idx: usize,
    data: &[u8],
    stream_len: u64,
    modify_time: Option<FILETIME>,
) -> (r: Result<Vec<WriteOp>, OpenError>)
    requires
        index_wf(old(index).chains()),
        index_offsets_fit(old(index).chains()),
        cipher_wf(bf),
        old(index).chains().contains_key(chain.0),
        idx < chain_entries(old(index).chains()[chain.0]).len(),
        entry_is_file(entry_at(old(index).chains(), chain.0, idx as int)),
        data@.len() <= u32::MAX,
    ensures
        index_wf(final(index).chains()),
        index_offsets_fit(final(index).chains()),
        data@.len() == 0 ==> (r matches Ok(ops) && ops@.len() == 0) && final(index).chains() == old(index).chains(),
        data@.len() > 0 ==> {
            let e0 = entry_at(old(index).chains(), chain.0, idx as int);
            let e1 = entry_at(final(index).chains(), chain.0, idx as int);
            &&& entry_changed(old(index).chains(), final(index).chains(), chain.0, idx as int)
            &&& (r is Err <==> data_moves(e0, data@.len()) && stream_len == 0)
            &&& r matches Err(e) ==> e == OpenError::EmptyStream && e1 == with_modify_time(e0, modify_time)
            &&& r matches Ok(ops) ==> file_stored(
                old(index).chains(),
                final(index).chains(),
                chain.0,
                idx as int,
                data@,
                stream_len,
                modify_time,
                cipher_key(bf),
                ops@,
            )
        },
{
    if data.len() == 0 {
        return Ok(Vec::new());
    }
    let ghost m0 = index.chains();
    let len = data.len() as u32;
    let mut failed = false;
    let mut pos: u64 = 0;
    {
        let e = index.get_entry_mut(chain, idx).unwrap();
        let ne = e.as_non_empty_mut().unwrap();
        match modify_time {
            Some(t) => {
                ne.modify_time = t;
            },
            None => {},
        }
        let (pos_data, size) = ne.file_data().unwrap();
        if data.len() as u64 > size as u64 {
            if stream_len == 0 {
                failed = true;
            } else {
                pos = stream_len;
            }
        } else {
            pos = pos_data.0;
        }
        if !failed {
            ne.kind = DirectoryOrFile::File { pos_data: StreamOffset(pos), size: len };
        }
    }
    proof {
        let m2 = index.chains();
        assert(m2.contains_key(chain.0));
        assert(chain_offsets_fit(m2[chain.0])) by {
            assert forall|k: int| 0 <= k < m2[chain.0].blocks@.len() implies 0 < #[trigger] m2[chain.0].blocks@[k].0.0 <= u64::MAX - 2560 by {
                assert(chain_block_offsets(m2[chain.0]).len() == chain_block_offsets(m0[chain.0]).len());
                assert(chain_block_offsets(m2[chain.0])[k] == chain_block_offsets(m0[chain.0])[k]);
                assert(chain_offsets_fit(m0[chain.0]));
            }
        }
        assert(index_offsets_fit(m2));
    }
    if failed {
        return Err(OpenError::EmptyStream);
    }
    let mut ops: Vec<WriteOp> = Vec::new();
    ops.push(WriteOp { offset: pos, data: vstd::slice::slice_to_vec(data) });
    let c = index.get(chain).unwrap();
    proof { assert(chain_wf(*c)); }
    let w = write_chain_entry(bf, c, idx);
    ops.push(w);
    Ok(ops)
}

/// When only entry `i` of chain `c` changed, every block lies where it did.
proof fn lemma_same_offsets(m0: Map<u64, PackBlockChain>, m1: Map<u64, PackBlockChain>, c: u64)
    requires
        m1.dom() == m0.dom(),
        forall|k: u64| k != c && #[trigger] m0.contains_key(k) ==> m1[k] == m0[k],
        chain_block_offsets(m1[c]) == chain_block_offsets(m0[c]),
    ensures
        forall|k: u64, b: int| m0.contains_key(k) && 0 <= b < m0[k].blocks@.len()
            ==> b < m1[k].blocks@.len() && #[trigger] m1[k].blocks@[b].0 == m0[k].blocks@[b].0,
        forall|k: u64| m0.contains_key(k) ==> #[trigger] m1[k].blocks@.len() == m0[k].blocks@.len(),
{
    assert(chain_block_offsets(m0[c]).len() == m0[c].blocks@.len());
    assert(chain_block_offsets(m1[c]).len() == m1[c].blocks@.len());
    assert forall|k: u64, b: int| m0.contains_key(k) && 0 <= b < m0[k].blocks@.len()
        implies b < m1[k].blocks@.len() && #[trigger] m1[k].blocks@[b].0 == m0[k].blocks@[b].0 by {
        if k == c {
            assert(chain_block_offsets(m1[c])[b] == m1[c].blocks@[b].0);
            assert(chain_block_offsets(m0[c])[b] == m0[c].blocks@[b].0);
        }
    }
}

/// Where storing a file's data puts it: data longer than the file's old data is written at the
/// end of the stream and the entry points there; data no longer than the old data is written
/// over it, where the entry keeps pointing. Either way the entry takes the new size. (It is
/// exactly longer data that counts as moving, the case that cannot go into an empty stream.)
pub proof fn lemma_stored_data_place(
    m0: Map<u64, PackBlockChain>,
    m1: Map<u64, PackBlockChain>,
    c: u64,
    i: int,
    data: Seq<u8>,
    stream_len: u64,
    time: Option<FILETIME>,
    key: Option<Seq<u8>>,
    ops: Seq<WriteOp>,
    pos_data: StreamOffset,
    size: u32,
)
    requires
        file_stored(m0, m1, c, i, data, stream_len, time, key, ops),
        entry_at(m0, c, i).entry matches Some(ne) && ne.kind == (DirectoryOrFile::File { pos_data, size }),
    ensures
        data.len() > size ==> ops[0].offset == stream_len && (entry_at(m1, c, i).entry matches Some(nf)
            && nf.kind == (DirectoryOrFile::File { pos_data: StreamOffset(stream_len), size: data.len() as u32 })),
        data.len() <= size ==> ops[0].offset == pos_data.0 && (entry_at(m1, c, i).entry matches Some(nf)
            && nf.kind == (DirectoryOrFile::File { pos_data, size: data.len() as u32 })),
        ops[0].data@ == data,
        data_moves(entry_at(m0, c, i), data.len()) <==> data.len() > size,
{
}

/// No block of the index overlaps the `len` bytes at `pos`.
pub open spec fn clear_of_blocks(m: Map<u64, PackBlockChain>, pos: int, len: int) -> bool {
    forall|k: u64, b: int|
        m.contains_key(k) && 0 <= b < m[k].blocks@.len() ==> pos + len <= #[trigger] m[k].blocks@[b].0.0
            || m[k].blocks@[b].0.0 + 2560 <= pos
}

/// Storing a file's data, in a stream of `stream_len` bytes that holds the index `ms` with no
/// two blocks overlapping, where `ms` is the index in memory up to the file's own entry (which
/// may not have been written yet): after the writes, the bytes that the file's entry points at
/// are the data, and the stream holds the changed index. Data that stays where the file's old
/// data was must lie clear of every block.
pub proof fn lemma_store_then_read(
    m0: Map<u64, PackBlockChain>,
    m1: Map<u64, PackBlockChain>,
    c: u64,
    i: int,
    data: Seq<u8>,
    stream_len: u64,
    time: Option<FILETIME>,
    key: Option<Seq<u8>>,
    ops: Seq<WriteOp>,
    s: Seq<u8>,
    ms: Map<u64, PackBlockChain>,
)
    requires
        index_wf(m0),
        index_wf(m1),
        index_wf(ms),
        index_offsets_fit(m0),
        m0.contains_key(c),
        0 <= i < chain_entries(m0[c]).len(),
        entry_changed(m0, m1, c, i),
        entry_changed(ms, m0, c, i),
        file_stored(m0, m1, c, i, data, stream_len, time, key, ops),
        s.len() == stream_len,
        data.len() <= u32::MAX,
        holds_index(key, s, ms),
        index_blocks_apart(ms),
        data_moves(entry_at(m0, c, i), data.len()) || clear_of_blocks(
            m0,
            data_position(entry_at(m0, c, i), data.len(), stream_len) as int,
            data.len() as int,
        ),
    ensures
        ({
            let s2 = apply_writes(s, ops);
            &&& entry_at(m1, c, i).entry matches Some(ne) && ne.kind matches DirectoryOrFile::File { pos_data, size }
                && s2.subrange(pos_data.0 as int, pos_data.0 + size) == data
            &&& holds_index(key, s2, m1)
            &&& index_blocks_apart(m1)
        }),
{
    let e0 = entry_at(m0, c, i);
    let pos = data_position(e0, data.len(), stream_len) as int;
    let len = data.len() as int;
    lemma_same_offsets(ms, m0, c);
    assert forall|k: u64, b: int| ms.contains_key(k) && 0 <= b < ms[k].blocks@.len() implies pos + len <= #[trigger] ms[k].blocks@[b].0.0
        || ms[k].blocks@[b].0.0 + 2560 <= pos by {
        if data_moves(e0, data.len()) {
            assert(holds_chain(key, s, ms[k]));
            assert(holds_block(key, s, ms[k].blocks@[b].0.0 as int, ms[k].blocks@[b].1));
        } else {
            assert(ms[k].blocks@[b].0 == m0[k].blocks@[b].0);
        }
    }
    let s1 = apply_write(s, pos, data);
    assert forall|k: u64| ms.contains_key(k) implies #[trigger] holds_chain(key, s1, ms[k]) by {
        assert(holds_chain(key, s, ms[k]));
        assert forall|b: int| 0 <= b < ms[k].blocks@.len() implies #[trigger] holds_block(key, s1, ms[k].blocks@[b].0.0 as int, ms[k].blocks@[b].1) by {
            assert(holds_block(key, s, ms[k].blocks@[b].0.0 as int, ms[k].blocks@[b].1));
            lemma_write_clear_of_block(key, s, pos, data, ms[k].blocks@[b].0.0 as int, ms[k].blocks@[b].1);
        }
    }
    assert(chain_wf(m1[c]));
    assert(ms.contains_key(c));
    assert(chain_offsets_fit(ms[c])) by {
        assert(chain_offsets_fit(m0[c]));
        assert forall|b: int| 0 <= b < ms[c].blocks@.len() implies 0 < #[trigger] ms[c].blocks@[b].0.0 <= u64::MAX - 2560 by {
            assert(ms[c].blocks@[b].0 == m0[c].blocks@[b].0);
        }
    }
    assert(chain_entries(ms[c]).len() == chain_entries(m0[c]).len());
    assert(chain_entries(m1[c]) =~= chain_entries(ms[c]).update(i, chain_entries(m1[c])[i]));
    assert(chain_block_offsets(m1[c]) == chain_block_offsets(ms[c]));
    assert(m1.dom() == ms.dom());
    assert forall|k: u64| k != c && #[trigger] ms.contains_key(k) implies m1[k] == ms[k] by {
        assert(m0.contains_key(k));
    }
    lemma_index_entry_write(key, s1, ms, m1, c, i);
    let eo = entry_stream_offset(m1[c], i) as int;
    let img = entry_image(key, chain_entries(m1[c])[i]);
    let s2 = apply_write(s1, eo, img);
    lemma_chain_index_bound(m0[c], i);
    let bs = i / 20;
    let j = i % 20;
    assert(chain_block_offsets(m0[c]).len() == m0[c].blocks@.len());
    assert(chain_block_offsets(m1[c]).len() == m1[c].blocks@.len());
    assert(chain_block_offsets(m1[c])[bs] == m1[c].blocks@[bs].0);
    assert(chain_block_offsets(m0[c])[bs] == m0[c].blocks@[bs].0);
    assert(ms[c].blocks@[bs].0 == m0[c].blocks@[bs].0);
    let bo = m0[c].blocks@[bs].0.0 as int;
    assert(eo == bo + 128 * j);
    assert(pos + len <= bo || bo + 2560 <= pos);
    assert(img.len() == 128);
    assert forall|t: int| 0 <= t < len implies #[trigger] s2.subrange(pos, pos + len)[t] == data[t] by {
        assert(s2[pos + t] == s1[pos + t]);
    }
    assert(s2.subrange(pos, pos + len) =~= data);
    assert(ops[0].offset == pos && ops[0].data@ == data);
    assert(ops[1].offset == eo && ops[1].data@ == img);
    reveal_with_fuel(apply_writes, 3);
    assert(ops.drop_first()[0] == ops[1]);
    assert(ops.drop_first().drop_first().len() == 0);
    assert(apply_writes(s, ops) == s2);
}

/// Creating a file and then storing its data, starting from a stream that holds the index with
/// no two blocks overlapping: after both sets of writes, the bytes that the file's entry points
/// at are the data, and the stream holds the index.
pub proof fn lemma_create_store_read(
    key: Option<Seq<u8>>,
    s: Seq<u8>,
    m0: Map<u64, PackBlockChain>,
    m1: Map<u64, PackBlockChain>,
    m2: Map<u64, PackBlockChain>,
    c: u64,
    i: int,
    ops1: Seq<WriteOp>,
    len1: u64,
    data: Seq<u8>,
    time: Option<FILETIME>,
    ops2: Seq<WriteOp>,
)
    requires
        index_wf(m0),
        index_wf(m1),
        index_wf(m2),
        index_offsets_fit(m1),
        s.len() <= u64::MAX,
        holds_index(key, s, m0),
        index_blocks_apart(m0),
        file_created(key, m0, m1, s.len() as u64, c, i, ops1, len1),
        m1.contains_key(c),
        0 <= i < chain_entries(m1[c]).len(),
        data_moves(entry_at(m1, c, i), data.len()),
        data.len() <= u32::MAX,
        entry_changed(m1, m2, c, i),
        file_stored(m1, m2, c, i, data, len1, time, key, ops2),
    ensures
        ({
            let s2 = apply_writes(apply_writes(s, ops1), ops2);
            &&& entry_at(m2, c, i).entry matches Some(ne) && ne.kind matches DirectoryOrFile::File { pos_data, size }
                && s2.subrange(pos_data.0 as int, pos_data.0 + size) == data
            &&& holds_index(key, s2, m2)
            &&& index_blocks_apart(m2)
        }),
{
    let mid = choose|mid: Map<u64, PackBlockChain>| {
        &&& index_wf(mid)
        &&& writes_keep_stream(key, m0, mid, s.len() as u64, ops1, len1)
        &&& entry_changed(mid, m1, c, i)
    };
    let t = apply_writes(s, ops1);
    assert(holds_index(key, s, m0));
    assert(t.len() == len1 && holds_index(key, t, mid) && index_blocks_apart(mid));
    lemma_store_then_read(m1, m2, c, i, data, len1, time, key, ops2, t, mid);
}

} // verus!
