//! The writes that keep an archive's stream in step with its index: each is an offset and the
//! (encrypted, when the archive is) bytes to put there.

use vstd::prelude::*;
use crate::blowfish::{Blowfish, ecb_encrypt};
use crate::format::block_chain::{
    PackBlock, PackBlockChain, block_wf, block_written, chain_block_offsets, chain_entries,
    chain_wf, entry_chunk,
};
use crate::format::entry::{DirectoryOrFile, PackEntry, entry_written};
use crate::filetime::{FILETIME, MS_EPOCH};
use crate::format::{BlockOffset, ChainOffset, StreamOffset};

verus! {

/// Bytes to write at an offset of the stream.
#[derive(Debug)]
pub struct WriteOp {
    pub offset: u64,
    pub data: Vec<u8>,
}

/// The key of an optional cipher.
pub open spec fn cipher_key(bf: Option<&Blowfish>) -> Option<Seq<u8>> {
    match bf {
        Some(b) => Some(b.key()),
        None => None,
    }
}

/// Whether an optional cipher is usable.
pub open spec fn cipher_wf(bf: Option<&Blowfish>) -> bool {
    match bf {
        Some(b) => b.wf(),
        None => true,
    }
}

/// `data` as stored: encrypted under `key` when there is one.
pub open spec fn sealed(key: Option<Seq<u8>>, data: Seq<u8>) -> Seq<u8> {
    match key {
        Some(k) => ecb_encrypt(k, data),
        None => data,
    }
}

/// The stored bytes of a block.
pub open spec fn block_image(key: Option<Seq<u8>>, block: PackBlock) -> Seq<u8> {
    sealed(key, block_written(Seq::new(2560, |i: int| 0u8), block))
}

/// The stored bytes of a block of 20 empty entries without links.
pub open spec fn empty_block_image(key: Option<Seq<u8>>) -> Seq<u8> {
    sealed(
        key,
        Seq::new(
            2560,
            |i: int| entry_written(entry_chunk(Seq::new(2560, |j: int| 0u8), i / 128), PackEntry { entry: None, next_block: None })[i % 128],
        ),
    )
}

pub proof fn lemma_empty_block_image(key: Option<Seq<u8>>, b: PackBlock)
    requires
        block_wf(b),
        forall|k: int| 0 <= k < 20 ==> (#[trigger] b.entries@[k]).entry is None && b.entries@[k].next_block is None,
    ensures
        block_image(key, b) == empty_block_image(key),
{
    let z = Seq::new(2560, |j: int| 0u8);
    let e = PackEntry { entry: None, next_block: None };
    let x = block_written(z, b);
    let y = Seq::new(2560, |i: int| entry_written(entry_chunk(z, i / 128), e)[i % 128]);
    assert forall|i: int| 0 <= i < 2560 implies x[i] == y[i] by {
        let k = i / 128;
        assert(0 <= k < 20);
        assert(b.entries@[k] == e);
    }
    assert(x =~= y);
}

/// The stored bytes of an entry.
pub open spec fn entry_image(key: Option<Seq<u8>>, entry: PackEntry) -> Seq<u8> {
    sealed(key, entry_written(Seq::new(128, |i: int| 0u8), entry))
}

fn seal(bf: Option<&Blowfish>, buf: &mut [u8])
    requires
        cipher_wf(bf),
        old(buf)@.len() % 8 == 0,
    ensures
        final(buf)@ == sealed(cipher_key(bf), old(buf)@),
{
    match bf {
        Some(b) => {
            let _ = b.encrypt(buf);
        },
        None => {},
    }
}

/// The write that stores `block` at `offset`: the block serialized into zeroed bytes,
/// encrypted when there is a cipher.
pub fn write_block(bf: Option<&Blowfish>, offset: BlockOffset, block: &PackBlock) -> (r: WriteOp)
    requires
        cipher_wf(bf),
        block_wf(*block),
    ensures
        r.offset == offset.0,
        r.data@ == block_image(cipher_key(bf), *block),
{
    let mut buf = [0u8; 2560];
    proof { assert(buf@ =~= Seq::new(2560, |i: int| 0u8)); }
    block.write_to(&mut buf);
    seal(bf, &mut buf);
    WriteOp { offset: offset.0, data: vstd::slice::slice_to_vec(&buf) }
}

/// The write that stores `entry` at `offset`: the entry serialized into zeroed bytes,
/// encrypted when there is a cipher.
pub fn write_entry_at(bf: Option<&Blowfish>, offset: StreamOffset, entry: &PackEntry) -> (r: WriteOp)
    requires
        cipher_wf(bf),
    ensures
        r.offset == offset.0,
        r.data@ == entry_image(cipher_key(bf), *entry),
{
    let mut buf = [0u8; 128];
    proof { assert(buf@ =~= Seq::new(128, |i: int| 0u8)); }
    entry.write_to(&mut buf);
    seal(bf, &mut buf);
    WriteOp { offset: offset.0, data: vstd::slice::slice_to_vec(&buf) }
}

/// The stream offset of entry `idx` of `chain`.
pub open spec fn entry_stream_offset(chain: PackBlockChain, idx: int) -> u64 {
    (chain.blocks@[idx / 20].0.0 + 128 * (idx % 20)) as u64
}

/// The block offsets of a chain leave room for their 20 entries below `u64::MAX`.
pub open spec fn chain_offsets_fit(chain: PackBlockChain) -> bool {
    forall|k: int| 0 <= k < chain.blocks@.len() ==> 0 < #[trigger] chain.blocks@[k].0.0 <= u64::MAX - 2560
}

/// The write that stores entry `entry_index` of `chain` where it lies in the stream.
pub fn write_chain_entry(bf: Option<&Blowfish>, chain: &PackBlockChain, entry_index: usize) -> (r: WriteOp)
    requires
        cipher_wf(bf),
        chain_wf(*chain),
        chain_offsets_fit(*chain),
        entry_index < chain_entries(*chain).len(),
    ensures
        r.offset == entry_stream_offset(*chain, entry_index as int),
        r.data@ == entry_image(cipher_key(bf), chain_entries(*chain)[entry_index as int]),
{
    proof {
        crate::format::block_chain::lemma_chain_index_bound(*chain, entry_index as int);
        assert(chain.blocks@[entry_index as int / 20].0.0 <= u64::MAX - 2560);
    }
    let offset = chain.stream_offset_for_entry(entry_index).unwrap();
    let e = chain.get(entry_index).unwrap();
    write_entry_at(bf, offset, e)
}

/// Appends `data` to a stream of `stream_len` bytes: the offset it lands at and the write.
/// An empty stream has no valid offset for it.
pub fn append_data(stream_len: u64, data: &[u8]) -> (r: Option<(StreamOffset, WriteOp)>)
    ensures
        r is None <==> stream_len == 0,
        r matches Some((o, w)) ==> o.0 == stream_len && w.offset == stream_len && w.data@ == data@,
{
    if stream_len == 0 {
        return None;
    }
    Some((StreamOffset(stream_len), WriteOp { offset: stream_len, data: vstd::slice::slice_to_vec(data) }))
}

/// Allocates an empty block at the end of a stream of `stream_len` bytes.
pub fn allocate_empty_block(bf: Option<&Blowfish>, stream_len: u64) -> (r: Option<(BlockOffset, PackBlock, WriteOp)>)
    requires
        cipher_wf(bf),
    ensures
        r is None <==> stream_len == 0,
        r matches Some((o, b, w)) ==> o.0 == stream_len && block_wf(b)
            && (forall|k: int| 0 <= k < 20 ==> (#[trigger] b.entries@[k]).entry is None && b.entries@[k].next_block is None)
            && w.offset == stream_len && w.data@ == block_image(cipher_key(bf), b)
            && w.data@ == empty_block_image(cipher_key(bf)),
{
    if stream_len == 0 {
        return None;
    }
    let offset = BlockOffset(stream_len);
    let block = PackBlock::default();
    let w = write_block(bf, offset, &block);
    proof { lemma_empty_block_image(cipher_key(bf), block); }
    Some((offset, block, w))
}


/// `e` is the directory entry named `name` for the chain at `children`, with default times and
/// the link `next`.
pub open spec fn dir_entry_for(e: PackEntry, name: Seq<char>, children: u64, next: Option<BlockOffset>) -> bool {
    &&& e.next_block == next
    &&& e.entry matches Some(ne) && ne.name@ == name && ne.kind == (DirectoryOrFile::Directory {
        pos_children: ChainOffset(children),
    }) && ne.access_time == FILETIME::from_ticks(MS_EPOCH) && ne.create_time
        == FILETIME::from_ticks(MS_EPOCH) && ne.modify_time == FILETIME::from_ticks(MS_EPOCH)
}

/// The first block of a new directory's chain at `self_off`: `.` pointing at itself, `..` at
/// `parent`, and 18 empty entries.
pub open spec fn fresh_dir_block(b: PackBlock, self_off: u64, parent: u64) -> bool {
    &&& block_wf(b)
    &&& dir_entry_for(b.entries@[0], seq!['.'], self_off, None)
    &&& dir_entry_for(b.entries@[1], seq!['.', '.'], parent, None)
    &&& forall|k: int| 2 <= k < 20 ==> (#[trigger] b.entries@[k]).entry is None && b.entries@[k].next_block is None
}

/// Makes entry `chain_entry_idx` of `current_chain` the directory `dir_name` whose chain starts
/// at the end of a stream of `stream_len` bytes, keeping the entry's link. Returns the new
/// chain, the write of its first block and the write of the changed entry, in that order.
pub fn allocate_new_block_chain(
    blowfish: Option<&Blowfish>,
    stream_len: u64,
    current_chain: &mut PackBlockChain,
    dir_name: &str,
    chain_entry_idx: usize,
) -> (r: Option<(PackBlockChain, WriteOp, WriteOp)>)
    requires
        cipher_wf(blowfish),
        chain_wf(*old(current_chain)),
        chain_offsets_fit(*old(current_chain)),
        chain_entry_idx < chain_entries(*old(current_chain)).len(),
        stream_len <= u64::MAX - 2560,
    ensures
        r is None <==> stream_len == 0,
        r is None ==> *final(current_chain) == *old(current_chain),
        chain_wf(*final(current_chain)),
        chain_offsets_fit(*final(current_chain)),
        chain_block_offsets(*final(current_chain)) == chain_block_offsets(*old(current_chain)),
        final(current_chain).blocks@.len() == old(current_chain).blocks@.len(),
        final(current_chain).blocks@[0].0 == old(current_chain).blocks@[0].0,
        r matches Some((nc, w_block, w_entry)) ==> {
            let s = chain_entries(*old(current_chain));
            let f = chain_entries(*final(current_chain));
            &&& f.len() == s.len()
            &&& forall|j: int| 0 <= j < s.len() && j != chain_entry_idx ==> #[trigger] f[j] == s[j]
            &&& dir_entry_for(f[chain_entry_idx as int], dir_name@, stream_len, s[chain_entry_idx as int].next_block)
            &&& nc.blocks@.len() == 1
            &&& nc.blocks@[0].0 == BlockOffset(stream_len)
            &&& fresh_dir_block(nc.blocks@[0].1, stream_len, old(current_chain).blocks@[0].0.0)
            &&& chain_wf(nc)
            &&& chain_offsets_fit(nc)
            &&& w_block.offset == stream_len
            &&& w_block.data@ == block_image(cipher_key(blowfish), nc.blocks@[0].1)
            &&& w_entry.offset == entry_stream_offset(*final(current_chain), chain_entry_idx as int)
            &&& w_entry.data@ == entry_image(cipher_key(blowfish), f[chain_entry_idx as int])
        },
{
    if stream_len == 0 {
        return None;
    }
    let new_chain_offset = ChainOffset(stream_len);
    let parent = current_chain.chain_index();
    let ghost old_chain = *current_chain;
    let entry = current_chain.get_mut(chain_entry_idx).unwrap();
    let nb = entry.next_block();
    *entry = PackEntry::new_directory(dir_name, new_chain_offset, nb);
    proof {
        let o = chain_block_offsets(old_chain);
        let n = chain_block_offsets(*current_chain);
        assert(current_chain.blocks@.len() == old_chain.blocks@.len()) by {
            assert(n.len() == o.len());
        }
        assert forall|k: int| 0 <= k < current_chain.blocks@.len() implies 0 < #[trigger] current_chain.blocks@[k].0.0 <= u64::MAX - 2560 by {
            assert(n[k] == o[k]);
        }
        assert(n[0] == o[0]);
    }
    let mut block = PackBlock::default();
    let dot = ".";
    let dotdot = "..";
    proof {
        reveal_strlit(".");
        reveal_strlit("..");
    }
    block.set(0, PackEntry::new_directory(dot, new_chain_offset, None));
    block.set(1, PackEntry::new_directory(dotdot, parent, None));
    let w_block = write_block(blowfish, BlockOffset(stream_len), &block);
    let w_entry = write_chain_entry(blowfish, current_chain, chain_entry_idx);
    let mut blocks: Vec<(BlockOffset, PackBlock)> = Vec::new();
    blocks.push((BlockOffset(stream_len), block));
    let nc = PackBlockChain::from_blocks(blocks);
    proof {
        assert(dot@ =~= seq!['.']);
        assert(dotdot@ =~= seq!['.', '.']);
    }
    Some((nc, w_block, w_entry))
}

} // verus!
