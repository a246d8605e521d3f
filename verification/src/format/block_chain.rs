//! Blocks of 20 entries, and chains of blocks that hold a directory's entries.

use vstd::prelude::*;
use crate::bytes::copy_bytes;
use vstd::string::StringSliceAdditionalSpecFns;
use crate::error::ChainLookupError;
use crate::format::entry::{
    InvalidPackEntryType, NAME_STORED, PackEntry, entries_match, entry_children,
    entry_name_matches, entry_parse_ok, entry_parsed_from, entry_wf, entry_written,
    lemma_entry_parse_of_write, name_roundtrips, plain_name, stored_name,
};
use crate::format::{BlockOffset, ChainOffset, StreamOffset};

verus! {

/// The number of entries in a block.
pub const PK2_FILE_BLOCK_ENTRY_COUNT: usize = 20usize;

/// The length of a block in the archive.
pub const PK2_FILE_BLOCK_SIZE: usize = 2560usize;

/// The 128 bytes of entry `k` among the bytes of a block.
pub open spec fn entry_chunk(b: Seq<u8>, k: int) -> Seq<u8> {
    b.subrange(128 * k, 128 * k + 128)
}

/// A collection of 20 entries.
#[derive(Debug)]
pub struct PackBlock {
    pub entries: Vec<PackEntry>,
}

/// A block holds exactly 20 entries.
pub open spec fn block_wf(b: PackBlock) -> bool {
    b.entries@.len() == 20
}

/// Every entry of the block has nonzero offsets.
pub open spec fn block_entries_wf(b: PackBlock) -> bool {
    forall|k: int| 0 <= k < b.entries@.len() ==> #[trigger] entry_wf(b.entries@[k])
}

/// The 2560 bytes describe valid entries only.
pub open spec fn block_parse_ok(b: Seq<u8>) -> bool {
    forall|k: int| 0 <= k < 20 ==> #[trigger] entry_parse_ok(entry_chunk(b, k))
}

/// `blk` is the block that the 2560 bytes `b` describe.
pub open spec fn block_parsed_from(blk: PackBlock, b: Seq<u8>) -> bool {
    &&& block_wf(blk)
    &&& forall|k: int| 0 <= k < 20 ==> #[trigger] entry_parsed_from(blk.entries@[k], entry_chunk(b, k))
}

/// The index of the first entry that does not parse (20 when all do).
pub open spec fn first_bad_entry(b: Seq<u8>) -> int
    decreases 20int,
{
    first_bad_entry_from(b, 0)
}

pub open spec fn first_bad_entry_from(b: Seq<u8>, k: int) -> int
    decreases 20 - k,
{
    if k >= 20 {
        20
    } else if !entry_parse_ok(entry_chunk(b, k)) {
        k
    } else {
        first_bad_entry_from(b, k + 1)
    }
}

/// What writing `blk` over the 2560 bytes `old` leaves: each entry written over its chunk.
pub open spec fn block_written(old: Seq<u8>, blk: PackBlock) -> Seq<u8> {
    Seq::new(
        2560,
        |i: int| entry_written(entry_chunk(old, i / 128), blk.entries@[i / 128])[i % 128],
    )
}

proof fn lemma_first_bad_from(b: Seq<u8>, k: int)
    requires
        0 <= k <= 20,
    ensures
        k <= first_bad_entry_from(b, k) <= 20,
        forall|j: int| k <= j < first_bad_entry_from(b, k) ==> #[trigger] entry_parse_ok(entry_chunk(b, j)),
        first_bad_entry_from(b, k) < 20 ==> !entry_parse_ok(entry_chunk(b, first_bad_entry_from(b, k))),
    decreases 20 - k,
{
    if k < 20 && entry_parse_ok(entry_chunk(b, k)) {
        lemma_first_bad_from(b, k + 1);
    }
}

impl Default for PackBlock {
    /// A block of 20 empty entries without links.
    fn default() -> (r: PackBlock)
        ensures
            block_wf(r),
            forall|k: int| 0 <= k < 20 ==> (#[trigger] r.entries@[k]).entry is None
                && r.entries@[k].next_block is None,
    {
        let mut entries: Vec<PackEntry> = Vec::new();
        let mut k: usize = 0;
        while k < PK2_FILE_BLOCK_ENTRY_COUNT
            invariant
                k <= 20,
                entries@.len() == k,
                forall|j: int| 0 <= j < k ==> (#[trigger] entries@[j]).entry is None
                    && entries@[j].next_block is None,
            decreases 20 - k,
        {
            entries.push(PackEntry::new_empty(None));
            k = k + 1;
        }
        PackBlock { entries }
    }
}

impl PackBlock {
    pub fn entries(&self) -> (r: &[PackEntry])
        ensures
            r@ == self.entries@,
    {
        self.entries.as_slice()
    }

    pub fn get(&self, entry: usize) -> (r: Option<&PackEntry>)
        ensures
            r == (if entry < self.entries@.len() { Some(&self.entries@[entry as int]) } else { None }),
    {
        if entry < self.entries.len() {
            Some(&self.entries[entry])
        } else {
            None
        }
    }

    pub fn get_mut(&mut self, entry: usize) -> (r: Option<&mut PackEntry>)
        ensures
            entry < old(self).entries@.len() ==> (r matches Some(e) && *e == old(self).entries@[entry as int]
                && final(self).entries@ == old(self).entries@.update(entry as int, *final(e))),
            entry >= old(self).entries@.len() ==> r is None && final(self).entries@ == old(self).entries@,
    {
        if entry < self.entries.len() {
            Some(&mut self.entries[entry])
        } else {
            None
        }
    }

    /// Replaces entry `idx`.
    pub fn set(&mut self, idx: usize, entry: PackEntry)
        requires
            idx < old(self).entries@.len(),
        ensures
            final(self).entries@ == old(self).entries@.update(idx as int, entry),
    {
        self.entries.set(idx, entry);
    }

    /// The link held by the last entry.
    pub fn next_block(&self) -> (r: Option<BlockOffset>)
        requires
            block_wf(*self),
        ensures
            r == self.entries@[19].next_block,
    {
        self.entries[PK2_FILE_BLOCK_ENTRY_COUNT - 1].next_block()
    }

    /// Reads a block from its 2560 bytes. Fails with the type byte of the first entry that
    /// does not parse.
    pub fn parse(buffer: &[u8; 2560]) -> (r: Result<PackBlock, InvalidPackEntryType>)
        ensures
            r is Ok <==> block_parse_ok(buffer@),
            r matches Ok(blk) ==> block_parsed_from(blk, buffer@) && block_entries_wf(blk),
            r matches Err(t) ==> first_bad_entry(buffer@) < 20 && t.0 == entry_chunk(
                buffer@,
                first_bad_entry(buffer@),
            )[0],
    {
        proof { lemma_first_bad_from(buffer@, 0); }
        let mut entries: Vec<PackEntry> = Vec::new();
        let mut k: usize = 0;
        while k < PK2_FILE_BLOCK_ENTRY_COUNT
            invariant
                k <= 20,
                entries@.len() == k,
                forall|j: int| 0 <= j < k ==> #[trigger] entry_parse_ok(entry_chunk(buffer@, j)),
                forall|j: int| 0 <= j < k ==> #[trigger] entry_parsed_from(entries@[j], entry_chunk(buffer@, j)),
                forall|j: int| 0 <= j < k ==> #[trigger] entry_wf(entries@[j]),
                first_bad_entry_from(buffer@, 0) == first_bad_entry_from(buffer@, k as int),
            decreases 20 - k,
        {
            let mut tmp = [0u8; 128];
            copy_bytes(&mut tmp, 0, buffer, 128 * k, 128);
            proof {
                assert(tmp@ =~= entry_chunk(buffer@, k as int)) by {
                    assert(tmp@ =~= tmp@.subrange(0, 128));
                }
            }
            match PackEntry::parse(&tmp) {
                Ok(e) => {
                    entries.push(e);
                },
                Err(t) => {
                    return Err(t);
                },
            }
            k = k + 1;
        }
        let r = PackBlock { entries };
        Ok(r)
    }

    /// Writes the entries over the 2560 bytes of `buffer`, each over its own 128 bytes.
    pub fn write_to(&self, buffer: &mut [u8; 2560])
        requires
            block_wf(*self),
        ensures
            final(buffer)@ == block_written(old(buffer)@, *self),
    {
        let ghost orig = buffer@;
        let mut k: usize = 0;
        while k < PK2_FILE_BLOCK_ENTRY_COUNT
            invariant
                k <= 20,
                block_wf(*self),
                buffer@.len() == 2560,
                orig.len() == 2560,
                forall|i: int| 0 <= i < 128 * k ==> #[trigger] buffer@[i] == block_written(orig, *self)[i],
                forall|i: int| 128 * k <= i < 2560 ==> #[trigger] buffer@[i] == orig[i],
            decreases 20 - k,
        {
            let ghost before = buffer@;
            let mut tmp = [0u8; 128];
            copy_bytes(&mut tmp, 0, buffer, 128 * k, 128);
            proof {
                assert(tmp@ =~= entry_chunk(orig, k as int)) by {
                    assert(tmp@ =~= tmp@.subrange(0, 128));
                }
            }
            self.entries[k].write_to(&mut tmp);
            copy_bytes(buffer, 128 * k, &tmp, 0, 128);
            proof {
                assert forall|i: int| 0 <= i < 128 * (k + 1) implies #[trigger] buffer@[i] == block_written(orig, *self)[i] by {
                    if i >= 128 * k {
                        assert(i / 128 == k) by (nonlinear_arith)
                            requires 128 * k <= i < 128 * (k + 1);
                        assert(i % 128 == i - 128 * k) by (nonlinear_arith)
                            requires 128 * k <= i < 128 * (k + 1);
                        assert(buffer@.subrange(128 * k, 128 * k + 128)[i - 128 * k] == tmp@.subrange(0, 128)[i - 128 * k]);
                    } else {
                        assert(buffer@[i] == before[i]);
                    }
                }
            }
            k = k + 1;
        }
        assert(buffer@ =~= block_written(orig, *self));
    }
}

/// Entry `e` can be written over the 128 bytes `old` and read back: its offsets are nonzero,
/// its name survives storage, and the byte after the stored name (if any) is zero.
pub open spec fn entry_rewritable(e: PackEntry, old: Seq<u8>) -> bool {
    &&& entry_wf(e)
    &&& e.entry matches Some(ne) ==> plain_name(ne.name@) || name_roundtrips(ne.name@)
    &&& e.entry matches Some(ne) ==> (stored_name(ne.name@).len() < NAME_STORED
        ==> old[1 + stored_name(ne.name@).len() as int] == 0)
}

/// The 128 bytes of entry `k` of a written block are that entry written over its old bytes.
pub proof fn lemma_block_written_chunk(old: Seq<u8>, b: PackBlock, k: int)
    requires
        block_wf(b),
        old.len() == 2560,
        0 <= k < 20,
    ensures
        entry_chunk(block_written(old, b), k) == entry_written(entry_chunk(old, k), b.entries@[k]),
{
    let w = block_written(old, b);
    let x = entry_chunk(w, k);
    let y = entry_written(entry_chunk(old, k), b.entries@[k]);
    assert forall|j: int| 0 <= j < 128 implies x[j] == y[j] by {
        let i = 128 * k + j;
        assert(i / 128 == k) by (nonlinear_arith)
            requires i == 128 * k + j, 0 <= j < 128;
        assert(i % 128 == j) by (nonlinear_arith)
            requires i == 128 * k + j, 0 <= j < 128;
        assert(0 <= i < 2560) by (nonlinear_arith)
            requires i == 128 * k + j, 0 <= j < 128, 0 <= k < 20;
    }
    assert(x =~= y);
}

/// Writing a block and parsing the bytes gives back its entries, when each entry can be
/// written over its old bytes and read back.
pub proof fn lemma_block_parse_of_write(b: PackBlock, old: Seq<u8>)
    requires
        block_wf(b),
        old.len() == 2560,
        forall|k: int| 0 <= k < 20 ==> #[trigger] entry_rewritable(b.entries@[k], entry_chunk(old, k)),
    ensures
        block_parse_ok(block_written(old, b)),
        forall|b2: PackBlock| #[trigger] block_parsed_from(b2, block_written(old, b))
            ==> forall|k: int| 0 <= k < 20 ==> #[trigger] entries_match(b2.entries@[k], b.entries@[k]),
{
    let w = block_written(old, b);
    assert forall|k: int| 0 <= k < 20 implies #[trigger] entry_parse_ok(entry_chunk(w, k))
        && forall|e2: PackEntry| #[trigger] entry_parsed_from(e2, entry_chunk(w, k)) ==> entries_match(e2, b.entries@[k]) by {
        lemma_block_written_chunk(old, b, k);
        assert(entry_rewritable(b.entries@[k], entry_chunk(old, k)));
        lemma_entry_parse_of_write(b.entries@[k], entry_chunk(old, k));
    }
    assert forall|b2: PackBlock| #[trigger] block_parsed_from(b2, w) implies forall|k: int| 0 <= k < 20 ==> #[trigger] entries_match(b2.entries@[k], b.entries@[k]) by {
        assert forall|k: int| 0 <= k < 20 implies #[trigger] entries_match(b2.entries@[k], b.entries@[k]) by {
            assert(entry_parse_ok(entry_chunk(w, k)));
            assert(entry_parsed_from(b2.entries@[k], entry_chunk(w, k)));
        }
    }
}

/// A chain of blocks where each block's last entry links to the following block. Never empty.
#[derive(Debug)]
pub struct PackBlockChain {
    pub blocks: Vec<(BlockOffset, PackBlock)>,
}

/// The chain is not empty, and every block holds 20 entries.
pub open spec fn chain_wf(c: PackBlockChain) -> bool {
    &&& c.blocks@.len() > 0
    &&& c.blocks@.len() * 20 <= usize::MAX
    &&& forall|k: int| 0 <= k < c.blocks@.len() ==> #[trigger] block_wf(c.blocks@[k].1)
}

/// The entries of a chain, block after block.
pub open spec fn chain_entries(c: PackBlockChain) -> Seq<PackEntry> {
    Seq::new(c.blocks@.len() * 20, |i: int| c.blocks@[i / 20].1.entries@[i % 20])
}

/// The offsets of a chain's blocks.
pub open spec fn chain_block_offsets(c: PackBlockChain) -> Seq<BlockOffset> {
    c.blocks@.map_values(|b: (BlockOffset, PackBlock)| b.0)
}

/// The index of the first entry of `s` whose name matches, or the length of `s`.
pub open spec fn first_match(s: Seq<PackEntry>, name: Seq<u8>) -> int
    decreases s.len(),
{
    if s.len() == 0 {
        0
    } else if entry_name_matches(s[0], name) {
        0
    } else {
        1 + first_match(s.drop_first(), name)
    }
}

/// The chain of the directory named `name` among `s`: the first entry with that name decides,
/// and must be a directory.
pub open spec fn lookup_dir(s: Seq<PackEntry>, name: Seq<u8>) -> Result<ChainOffset, ChainLookupError> {
    let i = first_match(s, name);
    if i < s.len() && entry_children(s[i]) is Some {
        Ok(entry_children(s[i])->0)
    } else {
        Err(ChainLookupError::NotFound)
    }
}

/// `first_match` is the first index whose entry matches.
pub proof fn lemma_first_match(s: Seq<PackEntry>, name: Seq<u8>)
    ensures
        0 <= first_match(s, name) <= s.len(),
        forall|j: int| 0 <= j < first_match(s, name) ==> !#[trigger] entry_name_matches(s[j], name),
        first_match(s, name) < s.len() ==> entry_name_matches(s[first_match(s, name)], name),
    decreases s.len(),
{
    if s.len() > 0 && !entry_name_matches(s[0], name) {
        lemma_first_match(s.drop_first(), name);
        assert forall|j: int| 0 <= j < first_match(s, name) implies !#[trigger] entry_name_matches(s[j], name) by {
            if j > 0 {
                assert(s[j] == s.drop_first()[j - 1]);
            }
        }
    }
}

/// An index whose entry matches, with none before it, is `first_match`.
pub proof fn lemma_first_match_at(s: Seq<PackEntry>, name: Seq<u8>, k: int)
    requires
        0 <= k <= s.len(),
        forall|j: int| 0 <= j < k ==> !#[trigger] entry_name_matches(s[j], name),
        k < s.len() ==> entry_name_matches(s[k], name),
    ensures
        first_match(s, name) == k,
    decreases k,
{
    if k > 0 {
        assert forall|j: int| 0 <= j < k - 1 implies !#[trigger] entry_name_matches(s.drop_first()[j], name) by {
            assert(s.drop_first()[j] == s[j + 1]);
        }
        lemma_first_match_at(s.drop_first(), name, k - 1);
    }
}

/// Entry `i` of a chain is entry `i % 20` of block `i / 20`.
pub proof fn lemma_chain_index(c: PackBlockChain, i: int)
    requires
        chain_wf(c),
        0 <= i,
        i / 20 < c.blocks@.len(),
    ensures
        i < chain_entries(c).len(),
        0 <= i % 20 < 20,
        chain_entries(c)[i] == c.blocks@[i / 20].1.entries@[i % 20],
{
    assert(i < c.blocks@.len() * 20) by (nonlinear_arith)
        requires 0 <= i, i / 20 < c.blocks@.len();
}

/// Entry `i` of a chain lies in block `i / 20`.
pub proof fn lemma_chain_index_bound(c: PackBlockChain, i: int)
    requires
        chain_wf(c),
        0 <= i < chain_entries(c).len(),
    ensures
        0 <= i / 20 < c.blocks@.len(),
        0 <= i % 20 < 20,
        chain_entries(c)[i] == c.blocks@[i / 20].1.entries@[i % 20],
{
    assert(i / 20 < c.blocks@.len()) by (nonlinear_arith)
        requires 0 <= i < c.blocks@.len() * 20;
}

impl PackBlockChain {
    /// The chain of the given blocks, which must not be empty.
    pub fn from_blocks(blocks: Vec<(BlockOffset, PackBlock)>) -> (r: PackBlockChain)
        requires
            blocks@.len() > 0,
        ensures
            r.blocks@ == blocks@,
    {
        PackBlockChain { blocks }
    }

    /// Appends a block, linking the current last entry to it.
    pub fn push_and_link(&mut self, offset: BlockOffset, block: PackBlock)
        requires
            chain_wf(*old(self)),
            block_wf(block),
            old(self).blocks@.len() * 20 + 20 <= usize::MAX,
        ensures
            chain_wf(*final(self)),
            chain_entries(*final(self)) == chain_entries(*old(self)).update(
                chain_entries(*old(self)).len() - 1,
                PackEntry {
                    entry: chain_entries(*old(self)).last().entry,
                    next_block: Some(offset),
                },
            ) + block.entries@,
            chain_block_offsets(*final(self)) == chain_block_offsets(*old(self)).push(offset),
            final(self).blocks@.last() == (offset, block),
    {
        let e = self.last_entry_mut();
        e.set_next_block(offset);
        self.blocks.push((offset, block));
        proof {
            let o = chain_entries(*old(self));
            let n = chain_entries(*final(self));
            let t = o.update(o.len() - 1, PackEntry { entry: o.last().entry, next_block: Some(offset) }) + block.entries@;
            assert forall|i: int| 0 <= i < n.len() implies n[i] == t[i] by {
                let b = i / 20;
                assert(b == i / 20);
            }
            assert(n =~= t);
            assert(chain_block_offsets(*final(self)) =~= chain_block_offsets(*old(self)).push(offset));
        }
    }

    /// Appends a block that the current last entry already links to.
    pub fn push(&mut self, offset: BlockOffset, block: PackBlock)
        requires
            chain_wf(*old(self)),
            block_wf(block),
            old(self).blocks@.len() * 20 + 20 <= usize::MAX,
            chain_entries(*old(self)).last().next_block == Some(offset),
        ensures
            chain_wf(*final(self)),
            final(self).blocks@ == old(self).blocks@.push((offset, block)),
            chain_entries(*final(self)) == chain_entries(*old(self)) + block.entries@,
    {
        self.blocks.push((offset, block));
        proof {
            let o = chain_entries(*old(self));
            let n = chain_entries(*final(self));
            assert forall|i: int| 0 <= i < n.len() implies n[i] == (o + block.entries@)[i] by {
                let b = i / 20;
                assert(b == i / 20);
            }
            assert(n =~= o + block.entries@);
        }
    }

    /// The offset of the chain: that of its first block.
    pub fn chain_index(&self) -> (r: ChainOffset)
        requires
            chain_wf(*self),
        ensures
            r == ChainOffset(self.blocks@[0].0.0),
    {
        ChainOffset(self.blocks[0].0.0)
    }

    /// The stream offset of entry `idx`: its block's offset plus 128 bytes per entry before it
    /// in the block. `None` beyond the chain.
    pub fn stream_offset_for_entry(&self, idx: usize) -> (r: Option<StreamOffset>)
        requires
            chain_wf(*self),
            idx / 20 < self.blocks@.len() ==> self.blocks@[idx as int / 20].0.0 + 2432 <= u64::MAX,
        ensures
            r == (if idx / 20 < self.blocks@.len() && self.blocks@[idx as int / 20].0.0 + 128 * (idx % 20) != 0 {
                Some(StreamOffset((self.blocks@[idx as int / 20].0.0 + 128 * (idx % 20)) as u64))
            } else {
                None
            }),
    {
        let b = idx / PK2_FILE_BLOCK_ENTRY_COUNT;
        if b < self.blocks.len() {
            let off = self.blocks[b].0.0 + (128 * (idx % PK2_FILE_BLOCK_ENTRY_COUNT)) as u64;
            StreamOffset::new(off)
        } else {
            None
        }
    }

    /// The number of entries in this chain.
    pub fn num_entries(&self) -> (r: usize)
        requires
            chain_wf(*self),
        ensures
            r == chain_entries(*self).len(),
    {
        self.blocks.len() * PK2_FILE_BLOCK_ENTRY_COUNT
    }

    /// The last entry of this chain.
    pub fn last_entry_mut(&mut self) -> (r: &mut PackEntry)
        requires
            chain_wf(*old(self)),
        ensures
            *r == chain_entries(*old(self)).last(),
            chain_wf(*final(self)),
            chain_entries(*final(self)) == chain_entries(*old(self)).update(
                chain_entries(*old(self)).len() - 1,
                *final(r),
            ),
            chain_block_offsets(*final(self)) == chain_block_offsets(*old(self)),
    {
        let last = self.num_entries() - 1;
        self.get_mut(last).unwrap()
    }

    /// The entries of this chain, block after block.
    pub fn entries(&self) -> (r: Vec<&PackEntry>)
        requires
            chain_wf(*self),
        ensures
            r@.len() == chain_entries(*self).len(),
            forall|i: int| 0 <= i < r@.len() ==> *#[trigger] r@[i] == chain_entries(*self)[i],
    {
        let mut r: Vec<&PackEntry> = Vec::new();
        let n = self.num_entries();
        let mut i: usize = 0;
        while i < n
            invariant
                chain_wf(*self),
                n == chain_entries(*self).len(),
                i <= n,
                r@.len() == i,
                forall|j: int| 0 <= j < i ==> *#[trigger] r@[j] == chain_entries(*self)[j],
            decreases n - i,
        {
            match self.get(i) {
                Some(e) => r.push(e),
                None => {},
            }
            i = i + 1;
        }
        r
    }

    /// Entry `entry` of this chain, `None` beyond it.
    pub fn get(&self, entry: usize) -> (r: Option<&PackEntry>)
        requires
            chain_wf(*self),
        ensures
            r == (if entry < chain_entries(*self).len() { Some(&chain_entries(*self)[entry as int]) } else { None }),
    {
        let b = entry / PK2_FILE_BLOCK_ENTRY_COUNT;
        if b < self.blocks.len() {
            proof {
                assert(entry < chain_entries(*self).len()) by (nonlinear_arith)
                    requires b == entry / 20, b < self.blocks@.len(), chain_entries(*self).len() == self.blocks@.len() * 20;
            }
            proof {
                lemma_chain_index(*self, entry as int);
                assert(b as int == entry as int / 20);
                assert(block_wf(self.blocks@[b as int].1));
            }
            let r = self.blocks[b].1.get(entry % PK2_FILE_BLOCK_ENTRY_COUNT);
            assert(r == Some(&self.blocks@[b as int].1.entries@[(entry % 20) as int]));
            assert(r == Some(&chain_entries(*self)[entry as int]));
            r
        } else {
            proof {
                assert(entry >= chain_entries(*self).len()) by (nonlinear_arith)
                    requires b == entry / 20, b >= self.blocks@.len(), chain_entries(*self).len() == self.blocks@.len() * 20;
            }
            None
        }
    }

    /// Entry `entry` of this chain for changing, `None` beyond it.
    pub fn get_mut(&mut self, entry: usize) -> (r: Option<&mut PackEntry>)
        requires
            chain_wf(*old(self)),
        ensures
            entry < chain_entries(*old(self)).len() ==> r is Some,
            r matches Some(e) ==> *e == chain_entries(*old(self))[entry as int],
            r matches Some(e) ==> chain_wf(*final(self)),
            r matches Some(e) ==> chain_entries(*final(self)) == chain_entries(*old(self)).update(entry as int, *final(e)),
            r matches Some(e) ==> chain_block_offsets(*final(self)) == chain_block_offsets(*old(self)),
            entry >= chain_entries(*old(self)).len() ==> r is None && *final(self) == *old(self),
    {
        let b = entry / PK2_FILE_BLOCK_ENTRY_COUNT;
        let k = entry % PK2_FILE_BLOCK_ENTRY_COUNT;
        if b < self.blocks.len() {
            proof {
                assert(entry < chain_entries(*self).len()) by (nonlinear_arith)
                    requires b == entry / 20, b < self.blocks@.len(), chain_entries(*self).len() == self.blocks@.len() * 20;
            }
            proof {
                lemma_chain_index(*self, entry as int);
            }
            proof {
                assert(block_wf(self.blocks@[b as int].1));
            }
            let blk = &mut self.blocks[b];
            let r = blk.1.get_mut(k);
            r
        } else {
            proof {
                assert(entry >= chain_entries(*self).len()) by (nonlinear_arith)
                    requires b == entry / 20, b >= self.blocks@.len(), chain_entries(*self).len() == self.blocks@.len() * 20;
            }
            None
        }
    }

    /// Whether `entry` indexes an entry of this chain.
    pub fn contains_entry_index(&self, entry: usize) -> (r: bool)
        requires
            chain_wf(*self),
        ensures
            r == (entry < chain_entries(*self).len()),
    {
        entry < self.num_entries()
    }

    /// The chain of the directory named `directory` (ignoring ASCII case) in this chain: the
    /// first entry with that name decides, and must be a directory.
    pub fn find_block_chain_index_of(&self, directory: &str) -> (r: Result<ChainOffset, ChainLookupError>)
        requires
            chain_wf(*self),
        ensures
            r == lookup_dir(chain_entries(*self), directory.spec_bytes()),
    {
        let n = self.num_entries();
        let ghost s = chain_entries(*self);
        let ghost name = directory.spec_bytes();
        let mut i: usize = 0;
        while i < n
            invariant
                chain_wf(*self),
                s == chain_entries(*self),
                name == directory.spec_bytes(),
                n == s.len(),
                i <= n,
                forall|j: int| 0 <= j < i ==> !#[trigger] entry_name_matches(s[j], name),
            decreases n - i,
        {
            match self.get(i) {
                Some(e) => {
                    assert(*e == s[i as int]);
                    let m = e.name_eq_ignore_ascii_case(directory);
                    if m {
                        proof { lemma_first_match_at(s, name, i as int); }
                        return match e.children() {
                            Some(c) => Ok(c),
                            None => Err(ChainLookupError::NotFound),
                        };
                    }
                },
                None => {},
            }
            i = i + 1;
        }
        proof { lemma_first_match_at(s, name, n as int); }
        Err(ChainLookupError::NotFound)
    }
}

} // verus!
