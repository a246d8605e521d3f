//! The decisions of an archive handle: which entry a path opens, and what creating or deleting
//! an entry changes in the index and writes to the stream. The handle that owns the stream
//! performs the writes, in order.

use vstd::prelude::*;
use vstd::string::StringSliceAdditionalSpecFns;
use crate::blowfish::Blowfish;
use crate::error::ChainLookupError;
use crate::filetime::{FILETIME, MS_EPOCH};
use crate::format::block_chain::{
    PackBlock, PackBlockChain, block_wf, chain_block_offsets, chain_entries, chain_wf,
    first_match, lemma_first_match, lemma_first_match_at, lookup_dir,
};
use crate::format::chain_index::{
    ChainIndex, PK2_ROOT_OFFSET, index_wf, lists_every_chain, lists_only_chains, resolve_components, resolve_entry, resolve_parent,
    resolve_path, resolve_step, split_components, walk_components,
};
use crate::format::entry::{
    DirectoryOrFile, PackEntry, ascii_lower, entry_children, entry_is_dir, entry_is_file, entry_name_matches,
    eq_ignore_ascii_case, name_bytes,
};
use crate::format::path::{skip_ascii, split_path};
use crate::stream::{
    apply_write, apply_writes, entry_changed, holds_index, index_blocks_apart,
    lemma_append_keeps_stream, lemma_apply_writes_push, lemma_index_entry_write,
    lemma_new_dir_keeps_stream, writes_keep_stream,
};
use crate::format::{BlockOffset, ChainOffset, StreamOffset};
use crate::io::{
    WriteOp, allocate_empty_block, empty_block_image, allocate_new_block_chain, dir_entry_for, fresh_dir_block, block_image, chain_offsets_fit, cipher_key, cipher_wf,
    entry_image, entry_stream_offset, write_block, write_chain_entry, write_entry_at,
};

verus! {

/// Why opening, creating or deleting an entry failed.
#[derive(Debug, Copy, Clone, PartialEq, Eq, Structural)]
pub enum OpenError {
    /// The path does not start with `/`.
    InvalidPath,
    /// Looking the path up failed.
    Lookup(ChainLookupError),
    /// The entry is not a file (or the path names the root).
    ExpectedFile,
    /// The entry is not a directory.
    ExpectedDirectory,
    /// Creating: the directory path could not be followed.
    InvalidInput(ChainLookupError),
    /// Creating: every component of the path exists as a directory.
    AlreadyExists,
    /// Creating: the stream is empty, so there is no offset to put a new block at.
    EmptyStream,
}

/// The bytes of `path` after a leading `/`, if it has one.
pub open spec fn strip_root(path: Seq<u8>) -> Option<Seq<u8>> {
    if path.len() > 0 && path[0] == 47u8 {
        Some(path.skip(1))
    } else {
        None
    }
}

/// Archive paths are absolute: strips the leading `/`.
pub fn check_root(path: &str) -> (r: Option<&str>)
    ensures
        r is Some <==> strip_root(path.spec_bytes()) is Some,
        r matches Some(p) ==> p.spec_bytes() == strip_root(path.spec_bytes())->0,
{
    let b = path.as_bytes();
    if b.len() > 0 && b[0] == 47u8 {
        Some(skip_ascii(path))
    } else {
        None
    }
}

/// Where an absolute path leads from the root: `Ok(None)` for the root itself, otherwise the
/// parent chain and index of the entry.
pub open spec fn root_entry(m: Map<u64, PackBlockChain>, path: Seq<u8>) -> Result<Option<(u64, int)>, OpenError> {
    match strip_root(path) {
        None => Err(OpenError::InvalidPath),
        Some(p) => if p.len() == 0 {
            Ok(None)
        } else {
            match resolve_entry(m, PK2_ROOT_OFFSET, p) {
                Ok(x) => Ok(Some(x)),
                Err(e) => Err(OpenError::Lookup(e)),
            }
        },
    }
}

/// Resolves an absolute path from the root chain.
pub fn root_resolve_path_to_entry_and_parent(index: &ChainIndex, path: &str) -> (r: Result<Option<(ChainOffset, usize)>, OpenError>)
    requires
        index_wf(index.chains()),
    ensures
        r is Ok <==> root_entry(index.chains(), path.spec_bytes()) is Ok,
        r matches Err(e) ==> root_entry(index.chains(), path.spec_bytes()) == Err::<Option<(u64, int)>, OpenError>(e),
        r matches Ok(None) ==> root_entry(index.chains(), path.spec_bytes()) == Ok::<Option<(u64, int)>, OpenError>(None),
        r matches Ok(Some((c, i))) ==> root_entry(index.chains(), path.spec_bytes()) == Ok::<Option<(u64, int)>, OpenError>(Some((c.0, i as int))),
{
    let p = match check_root(path) {
        Some(p) => p,
        None => {
            return Err(OpenError::InvalidPath);
        },
    };
    if p.as_bytes().len() == 0 {
        return Ok(None);
    }
    match index.resolve_path_to_entry_and_parent(ChainOffset(PK2_ROOT_OFFSET), p) {
        Ok((c, i, _)) => Ok(Some((c, i))),
        Err(e) => Err(OpenError::Lookup(e)),
    }
}

/// The entry at chain `c`, index `i`.
pub open spec fn entry_at(m: Map<u64, PackBlockChain>, c: u64, i: int) -> PackEntry {
    chain_entries(m[c])[i]
}

/// The file that an absolute path names: its chain and index.
pub fn open_file(index: &ChainIndex, path: &str) -> (r: Result<(ChainOffset, usize), OpenError>)
    requires
        index_wf(index.chains()),
    ensures
        r matches Ok((c, i)) ==> root_entry(index.chains(), path.spec_bytes()) == Ok::<Option<(u64, int)>, OpenError>(Some((c.0, i as int)))
            && entry_is_file(entry_at(index.chains(), c.0, i as int)),
        r matches Err(e) ==> match root_entry(index.chains(), path.spec_bytes()) {
            Err(e2) => e == e2,
            Ok(None) => e == OpenError::ExpectedFile,
            Ok(Some((c, i))) => e == OpenError::ExpectedFile && !entry_is_file(entry_at(index.chains(), c, i)),
        },
{
    match root_resolve_path_to_entry_and_parent(index, path) {
        Ok(Some((c, i))) => {
            let e = index.get_entry(c, i).unwrap();
            if e.is_file() {
                Ok((c, i))
            } else {
                Err(OpenError::ExpectedFile)
            }
        },
        Ok(None) => Err(OpenError::ExpectedFile),
        Err(e) => Err(e),
    }
}

/// The directory that an absolute path names: `None` for the root, otherwise its parent chain
/// and index.
pub fn open_directory(index: &ChainIndex, path: &str) -> (r: Result<Option<(ChainOffset, usize)>, OpenError>)
    requires
        index_wf(index.chains()),
    ensures
        r matches Ok(None) ==> root_entry(index.chains(), path.spec_bytes()) == Ok::<Option<(u64, int)>, OpenError>(None),
        r matches Ok(Some((c, i))) ==> root_entry(index.chains(), path.spec_bytes()) == Ok::<Option<(u64, int)>, OpenError>(Some((c.0, i as int)))
            && entry_is_dir(entry_at(index.chains(), c.0, i as int)),
        r matches Err(e) ==> match root_entry(index.chains(), path.spec_bytes()) {
            Err(e2) => e == e2,
            Ok(None) => false,
            Ok(Some((c, i))) => e == OpenError::ExpectedDirectory && !entry_is_dir(entry_at(index.chains(), c, i)),
        },
{
    match root_resolve_path_to_entry_and_parent(index, path) {
        Ok(Some((c, i))) => {
            let e = index.get_entry(c, i).unwrap();
            if e.is_directory() {
                Ok(Some((c, i)))
            } else {
                Err(OpenError::ExpectedDirectory)
            }
        },
        Ok(None) => Ok(None),
        Err(e) => Err(e),
    }
}

/// All chains' blocks leave room for their entries below `u64::MAX`.
pub open spec fn index_offsets_fit(m: Map<u64, PackBlockChain>) -> bool {
    forall|k: u64| m.contains_key(k) ==> #[trigger] chain_offsets_fit(m[k])
}

/// Deleting the file that the absolute path `path` names took the index from `m0` to `m1`:
/// its entry became empty, keeping its link, and the write of `data` at `off` stores the
/// emptied entry where it lies.
pub open spec fn file_deleted(
    m0: Map<u64, PackBlockChain>,
    m1: Map<u64, PackBlockChain>,
    path: Seq<u8>,
    key: Option<Seq<u8>>,
    off: u64,
    data: Seq<u8>,
) -> bool {
    exists|c: u64, i: int| {
        &&& root_entry(m0, path) == Ok::<Option<(u64, int)>, OpenError>(Some((c, i)))
        &&& entry_is_file(entry_at(m0, c, i))
        &&& m1.dom() == m0.dom()
        &&& forall|k: u64| k != c && #[trigger] m0.contains_key(k) ==> m1[k] == m0[k]
        &&& chain_entries(m1[c]) == chain_entries(m0[c]).update(
            i,
            PackEntry { entry: None, next_block: entry_at(m0, c, i).next_block },
        )
        &&& chain_block_offsets(m1[c]) == chain_block_offsets(m0[c])
        &&& off == entry_stream_offset(m1[c], i)
        &&& data == entry_image(key, chain_entries(m1[c])[i])
    }
}

/// Empties the file that an absolute path names, and returns the write that stores the
/// emptied entry.
pub fn delete_file(index: &mut ChainIndex, bf: Option<&Blowfish>, path: &str) -> (r: Result<WriteOp, OpenError>)
    requires
        index_wf(old(index).chains()),
        index_offsets_fit(old(index).chains()),
        cipher_wf(bf),
    ensures
        index_wf(final(index).chains()),
        r matches Err(e) ==> final(index).chains() == old(index).chains() && match root_entry(old(index).chains(), path.spec_bytes()) {
            Err(e2) => e == e2,
            Ok(None) => e == OpenError::ExpectedFile,
            Ok(Some((c, i))) => e == OpenError::ExpectedFile && !entry_is_file(entry_at(old(index).chains(), c, i)),
        },
        r matches Ok(w) ==> file_deleted(old(index).chains(), final(index).chains(), path.spec_bytes(), cipher_key(bf), w.offset, w.data@),
{
    let (c, i) = match open_file(index, path) {
        Ok(x) => x,
        Err(e) => {
            return Err(e);
        },
    };
    let ghost m0 = index.chains();
    let e = index.get_entry_mut(c, i).unwrap();
    let _ = e.clear();
    proof {
        assert(index.chains().contains_key(c.0));
        assert(chain_wf(index.chains()[c.0]));
        assert(chain_offsets_fit(m0[c.0]));
        assert(chain_offsets_fit(index.chains()[c.0])) by {
            assert(index.chains()[c.0].blocks@.len() == m0[c.0].blocks@.len()) by {
                assert(chain_block_offsets(index.chains()[c.0]).len() == chain_block_offsets(m0[c.0]).len());
            }
            assert forall|k: int| 0 <= k < index.chains()[c.0].blocks@.len() implies 0 < #[trigger] index.chains()[c.0].blocks@[k].0.0 <= u64::MAX - 2560 by {
                assert(chain_block_offsets(index.chains()[c.0])[k] == chain_block_offsets(m0[c.0])[k]);
            }
        }
    }
    let chain = index.get(c).unwrap();
    let w = write_chain_entry(bf, chain, i);
    Ok(w)
}


/// The index of the first empty entry of `s`, or its length.
pub open spec fn first_empty(s: Seq<PackEntry>) -> int
    decreases s.len(),
{
    if s.len() == 0 {
        0
    } else if s[0].entry is None {
        0
    } else {
        1 + first_empty(s.drop_first())
    }
}

proof fn lemma_first_empty_at(s: Seq<PackEntry>, k: int)
    requires
        0 <= k <= s.len(),
        forall|j: int| 0 <= j < k ==> (#[trigger] s[j]).entry is Some,
        k < s.len() ==> s[k].entry is None,
    ensures
        first_empty(s) == k,
    decreases k,
{
    if k > 0 {
        assert forall|j: int| 0 <= j < k - 1 implies (#[trigger] s.drop_first()[j]).entry is Some by {
            assert(s.drop_first()[j] == s[j + 1]);
        }
        lemma_first_empty_at(s.drop_first(), k - 1);
    }
}

/// The first empty entry of a chain, if any.
fn find_empty(chain: &PackBlockChain) -> (r: Option<usize>)
    requires
        chain_wf(*chain),
    ensures
        r is None <==> first_empty(chain_entries(*chain)) == chain_entries(*chain).len(),
        r matches Some(i) ==> i == first_empty(chain_entries(*chain)) && i < chain_entries(*chain).len()
            && chain_entries(*chain)[i as int].entry is None,
{
    let n = chain.num_entries();
    let ghost s = chain_entries(*chain);
    let mut i: usize = 0;
    while i < n
        invariant
            chain_wf(*chain),
            s == chain_entries(*chain),
            n == s.len(),
            i <= n,
            forall|j: int| 0 <= j < i ==> (#[trigger] s[j]).entry is Some,
        decreases n - i,
    {
        let e = chain.get(i).unwrap();
        if e.is_empty() {
            proof { lemma_first_empty_at(s, i as int); }
            return Some(i);
        }
        i = i + 1;
    }
    proof { lemma_first_empty_at(s, n as int); }
    None
}

/// Every chain has room for `extra` more blocks.
pub open spec fn index_room_for(m: Map<u64, PackBlockChain>, extra: int) -> bool {
    forall|k: u64| m.contains_key(k) ==> #[trigger] m[k].blocks@.len() * 20 + 20 * extra <= usize::MAX
}

/// The chain's blocks lie clear of the end of the offset range, and it has room for `extra`
/// more blocks.
pub open spec fn chain_fits(c: PackBlockChain, extra: int) -> bool {
    chain_offsets_fit(c) && c.blocks@.len() * 20 + 20 * extra <= usize::MAX
}

fn chain_fits_check(c: &PackBlockChain, extra: usize) -> (r: bool)
    ensures
        r == chain_fits(*c, extra as int),
{
    let room = match extra.checked_mul(20) {
        None => false,
        Some(e20) => match c.blocks.len().checked_mul(20) {
            None => false,
            Some(b20) => b20.checked_add(e20).is_some(),
        },
    };
    if !room {
        proof {
            if c.blocks@.len() * 20 + 20 * extra <= usize::MAX {
                assert(20 * extra <= usize::MAX);
                assert(c.blocks@.len() * 20 <= usize::MAX);
            }
        }
        return false;
    }
    let n = c.blocks.len();
    let mut k: usize = 0;
    while k < n
        invariant
            n == c.blocks@.len(),
            k <= n,
            forall|j: int| 0 <= j < k ==> 0 < #[trigger] c.blocks@[j].0.0 <= u64::MAX - 2560,
        decreases n - k,
    {
        let o = c.blocks[k].0.0;
        if o == 0 || o > u64::MAX - 2560 {
            return false;
        }
        k = k + 1;
    }
    true
}

/// Whether every chain of the index lies clear of the end of the offset range and has room for
/// `extra` more blocks: what creating, deleting and storing entries need of the index.
pub fn index_fits(index: &ChainIndex, extra: usize) -> (r: bool)
    ensures
        r == (index_offsets_fit(index.chains()) && index_room_for(index.chains(), extra as int)),
{
    let chains = index.chain_list();
    let ghost m = index.chains();
    let mut i: usize = 0;
    while i < chains.len()
        invariant
            m == index.chains(),
            i <= chains@.len(),
            lists_every_chain(chains@, m),
            lists_only_chains(chains@, m),
            forall|j: int| 0 <= j < i ==> chain_fits(*#[trigger] chains@[j], extra as int),
        decreases chains@.len() - i,
    {
        if !chain_fits_check(chains[i], extra) {
            proof {
                reveal(lists_only_chains);
                let c = chains@[i as int];
                let k = choose|k: u64| m.contains_key(k) && c == &m[k];
                assert(m.contains_key(k));
                assert(!chain_fits(m[k], extra as int));
            }
            return false;
        }
        i = i + 1;
    }
    proof {
        reveal(lists_every_chain);
        assert forall|k: u64| m.contains_key(k) implies #[trigger] chain_fits(m[k], extra as int) by {
            let j = choose|j: int| 0 <= j < chains@.len() && *chains@[j] == m[k];
            assert(chain_fits(*chains@[j], extra as int));
        }
        assert forall|k: u64| m.contains_key(k) implies #[trigger] chain_offsets_fit(m[k]) by {
            assert(chain_fits(m[k], extra as int));
        }
        assert forall|k: u64| m.contains_key(k) implies #[trigger] m[k].blocks@.len() * 20 + 20 * extra <= usize::MAX by {
            assert(chain_fits(m[k], extra as int));
        }
    }
    true
}

/// How far the directories of a path to create exist.
pub open spec fn create_walk(m: Map<u64, PackBlockChain>, chain: ChainOffset, path: Seq<u8>) -> Result<(u64, int), ChainLookupError> {
    walk_components(m, chain.0, split_path(path))
}

/// `q` is `.` or `..` (ignoring ASCII case), the names of the two entries that open the chain
/// of every new directory.
pub open spec fn dot_name(q: Seq<u8>) -> bool {
    eq_ignore_ascii_case(name_bytes(seq!['.']), q) || eq_ignore_ascii_case(name_bytes(seq!['.', '.']), q)
}

/// Creating what is missing of the path `comps` under `chain`, with new chains from offset
/// `end` on, leaves a path that leads through what was created: the walk stops at a component
/// that no entry of its directory has as its name (not even a file), the components after it
/// are neither empty nor `.` or `..`, and, where a directory is to be made, no chain of the
/// index starts at `end` or after it.
pub open spec fn creatable(m: Map<u64, PackBlockChain>, chain: u64, comps: Seq<Seq<u8>>, end: u64) -> bool {
    walk_components(m, chain, comps) matches Ok((c0, n)) && n < comps.len() && {
        &&& first_match(chain_entries(m[c0]), comps[n]) == chain_entries(m[c0]).len()
        &&& forall|k: int| n < k < comps.len() ==> (#[trigger] comps[k]).len() > 0 && !dot_name(comps[k])
        &&& n + 1 < comps.len() ==> forall|k: u64| #[trigger] m.contains_key(k) ==> k < end
    }
}

/// What creating the last component of a path in the chain `o` of its existing parent leaves
/// in that chain `f`, and at which index `i`: the first empty entry when there is one (the
/// chain unchanged), otherwise the first entry of a block appended at `end` and linked from
/// the old last entry.
pub open spec fn placed_in_chain(o: PackBlockChain, f: PackBlockChain, i: int, end: u64) -> bool {
    let s = chain_entries(o);
    let fe = first_empty(s);
    if fe < s.len() {
        i == fe && chain_entries(f) == s && chain_block_offsets(f) == chain_block_offsets(o)
    } else {
        &&& i == s.len()
        &&& chain_block_offsets(f) == chain_block_offsets(o).push(BlockOffset(end))
        &&& chain_entries(f).len() == s.len() + 20
        &&& forall|j: int| 0 <= j < s.len() - 1 ==> #[trigger] chain_entries(f)[j] == s[j]
        &&& chain_entries(f)[s.len() - 1] == (PackEntry { entry: s[s.len() - 1].entry, next_block: Some(BlockOffset(end)) })
        &&& forall|j: int| s.len() <= j < s.len() + 20 ==> (#[trigger] chain_entries(f)[j]).entry is None
            && chain_entries(f)[j].next_block is None
    }
}

/// The writes that placing an entry in chain `o` (which became `f`) takes, for a stream that
/// was `end` bytes long and becomes `new_end` bytes long: none when `o` had an empty entry;
/// otherwise the new last block of `f` at `end`, then the old last entry, now linked to it.
pub open spec fn placement_writes(key: Option<Seq<u8>>, o: PackBlockChain, f: PackBlockChain, end: u64, ops: Seq<WriteOp>, new_end: u64) -> bool {
    let s = chain_entries(o);
    if first_empty(s) < s.len() {
        ops.len() == 0 && new_end == end
    } else {
        &&& ops.len() == 2
        &&& ops[0].offset == end
        &&& ops[0].data@ == empty_block_image(key)
        &&& ops[1].offset == entry_stream_offset(f, s.len() - 1)
        &&& ops[1].data@ == entry_image(key, chain_entries(f)[s.len() - 1])
        &&& new_end == end + 2560
    }
}

/// Creates the directories of `path` (relative to `chain`) that do not exist yet and finds an
/// empty entry for its last component in the chain of its parent, appending blocks to full
/// chains. New blocks go at the end of a stream of `stream_len` bytes. Returns the parent
/// chain, the index of the (still empty) entry, the last component, the writes to perform in
/// order, and the length of the stream after them.
pub fn create_entry_at<'p>(
    index: &mut ChainIndex,
    blowfish: Option<&Blowfish>,
    stream_len: u64,
    chain: ChainOffset,
    path: &'p str,
) -> (r: Result<(ChainOffset, usize, &'p str, Vec<WriteOp>, u64), OpenError>)
    requires
        index_wf(old(index).chains()),
        index_offsets_fit(old(index).chains()),
        index_room_for(old(index).chains(), path.spec_bytes().len() + 1 as int),
        cipher_wf(blowfish),
        stream_len + 5120 * (path.spec_bytes().len() + 1) <= u64::MAX - 2560,
        20 * (path.spec_bytes().len() + 3) <= usize::MAX,
    ensures
        index_wf(final(index).chains()),
        index_offsets_fit(final(index).chains()),
        create_walk(old(index).chains(), chain, path.spec_bytes()) matches Err(e)
            ==> r == Err::<(ChainOffset, usize, &'p str, Vec<WriteOp>, u64), OpenError>(OpenError::InvalidInput(e)),
        create_walk(old(index).chains(), chain, path.spec_bytes()) matches Ok((c0, n))
            ==> n <= split_path(path.spec_bytes()).len(),
        create_walk(old(index).chains(), chain, path.spec_bytes()) matches Ok((c0, n))
            ==> (n == split_path(path.spec_bytes()).len() ==> r == Err::<(ChainOffset, usize, &'p str, Vec<WriteOp>, u64), OpenError>(OpenError::AlreadyExists)),
        create_walk(old(index).chains(), chain, path.spec_bytes()) matches Ok((c0, n))
            ==> (n < split_path(path.spec_bytes()).len() && stream_len != 0 ==> r is Ok),
        create_walk(old(index).chains(), chain, path.spec_bytes()) matches Ok((c0, n))
            ==> (n < split_path(path.spec_bytes()).len() ==> (r matches Err(e) ==> e == OpenError::EmptyStream && stream_len == 0)),
        r matches Ok((c, i, name, ops, new_len)) ==> writes_keep_stream(cipher_key(blowfish), old(index).chains(), final(index).chains(), stream_len, ops@, new_len),
        r matches Ok((c, i, name, ops, new_len)) ==> creatable(old(index).chains(), chain.0, split_path(path.spec_bytes()), stream_len) ==> {
            let comps = split_path(path.spec_bytes());
            &&& resolve_components(final(index).chains(), chain.0, comps.drop_last()) == Ok::<u64, ChainLookupError>(c.0)
            &&& first_match(chain_entries(final(index).chains()[c.0]), comps.last())
                == chain_entries(final(index).chains()[c.0]).len()
            &&& (create_walk(old(index).chains(), chain, path.spec_bytes()) matches Ok((c0, n))
                && forall|k: int| n <= k < comps.len() - 1 ==> #[trigger] names_exactly(final(index).chains(), chain.0, comps, k))
        },
        r matches Ok((c, i, name, ops, new_len)) ==> create_walk(old(index).chains(), chain, path.spec_bytes()) matches Ok((c0, n)) && {
            let comps = split_path(path.spec_bytes());
            &&& n < comps.len()
            &&& name.spec_bytes() == comps.last()
            &&& final(index).chains().contains_key(c.0)
            &&& i < chain_entries(final(index).chains()[c.0]).len()
            &&& chain_entries(final(index).chains()[c.0])[i as int].entry is None
            &&& old(index).chains().dom().subset_of(final(index).chains().dom())
            &&& forall|k: u64| k != c0 && k < stream_len && #[trigger] old(index).chains().contains_key(k)
                ==> final(index).chains()[k] == old(index).chains()[k]
            &&& stream_len <= new_len
            &&& n + 1 < comps.len() ==> c.0 >= stream_len
            &&& n + 1 == comps.len() ==> c.0 == c0 && placed_in_chain(
                old(index).chains()[c0],
                final(index).chains()[c0],
                i as int,
                stream_len,
            ) && placement_writes(
                cipher_key(blowfish),
                old(index).chains()[c0],
                final(index).chains()[c0],
                stream_len,
                ops@,
                new_len,
            ) && (final(index).chains().dom() == old(index).chains().dom())
                && forall|k: u64| k != c0 && #[trigger] old(index).chains().contains_key(k)
                    ==> final(index).chains()[k] == old(index).chains()[k]
        },
{
    let ghost m0 = index.chains();
    proof {
        crate::format::chain_index::lemma_walk_bound(m0, chain.0, split_path(path.spec_bytes()));
        crate::format::chain_index::lemma_split_path_len(path.spec_bytes());
    }
    let (start_chain, components) = match index.validate_dir_path_until(chain, path) {
        Ok(Some(x)) => x,
        Ok(None) => {
            return Err(OpenError::AlreadyExists);
        },
        Err(e) => {
            return Err(OpenError::InvalidInput(e));
        },
    };
    let ghost comps = split_path(path.spec_bytes());
    let ghost n = walk_components(m0, chain.0, comps)->Ok_0.1;
    proof {
        crate::format::chain_index::lemma_walk_in_index(m0, chain.0, comps);
        crate::format::chain_index::lemma_walk_resolves(m0, chain.0, comps);
    }
    let mut ops: Vec<WriteOp> = Vec::new();
    let mut end: u64 = stream_len;
    let mut cur = start_chain;
    let mut j: usize = 0;
    let count = components.len();
    while j < count
        invariant
            m0 == old(index).chains(),
            comps == split_path(path.spec_bytes()),
            create_walk(m0, chain, path.spec_bytes()) == Ok::<(u64, int), ChainLookupError>((start_chain.0, n)),
            0 <= n < comps.len(),
            count == components@.len(),
            count == comps.len() - n,
            0 < count,
            comps.len() <= path.spec_bytes().len() + 1,
            forall|t: int| 0 <= t < components@.len() ==> #[trigger] components@[t].spec_bytes() == comps[n + t],
            j < count,
            cipher_wf(blowfish),
            index_wf(index.chains()),
            index_offsets_fit(index.chains()),
            index_room_for(index.chains(), count - j),
            20 * (count + 2) <= usize::MAX,
            index.chains().contains_key(cur.0),
            stream_len <= end,
            end + 5120 * (count - j) <= u64::MAX - 2560,
            m0.dom().subset_of(index.chains().dom()),
            forall|k: u64| k != start_chain.0 && k < stream_len && #[trigger] m0.contains_key(k)
                ==> index.chains()[k] == m0[k],
            j == 0 ==> index.chains() == m0 && cur == start_chain && end == stream_len && ops@.len() == 0,
            j > 0 ==> stream_len != 0 && cur.0 >= stream_len,
            stream_len != 0 ==> end != 0,
            writes_keep_stream(cipher_key(blowfish), m0, index.chains(), stream_len, ops@, end),
            comps[n].len() > 0,
            creatable(m0, chain.0, comps, stream_len) ==> {
                &&& resolve_components(index.chains(), chain.0, comps.take(n + j)) == Ok::<u64, ChainLookupError>(cur.0)
                &&& first_match(chain_entries(index.chains()[cur.0]), comps[n + j])
                    == chain_entries(index.chains()[cur.0]).len()
                &&& n + 1 < comps.len() ==> forall|k: u64| #[trigger] index.chains().contains_key(k) ==> k < end
                &&& forall|k: int| n <= k < n + j ==> #[trigger] names_exactly(index.chains(), chain.0, comps, k)
            },
        decreases count - j,
    {
        let component = components[j];
        let ghost m_before = index.chains();
        let empty_pos = {
            let current = index.get(cur).unwrap();
            proof { assert(chain_wf(*current)); }
            find_empty(current)
        };
        let chain_entry_idx = match empty_pos {
            Some(idx) => idx,
            None => {
                let (offset, block, w) = match allocate_empty_block(blowfish, end) {
                    Some(x) => x,
                    None => {
                        return Err(OpenError::EmptyStream);
                    },
                };
                let ghost gw = w;
                let ghost ops_b = ops@;
                let ghost m_b = index.chains();
                let ghost end_b = end;
                ops.push(w);
                let current_chain = index.get_mut(cur).unwrap();
                proof {
                    assert(chain_wf(*current_chain));
                    assert(chain_offsets_fit(*current_chain));
                }
                let chain_entry_idx = current_chain.num_entries();
                let ghost before = *current_chain;
                let ghost gblock = block;
                current_chain.push_and_link(offset, block);
                proof {
                    let o = chain_block_offsets(before);
                    let nn = chain_block_offsets(*current_chain);
                    assert(current_chain.blocks@.len() == before.blocks@.len() + 1) by {
                        assert(nn.len() == o.len() + 1);
                    }
                    assert forall|k: int| 0 <= k < current_chain.blocks@.len() implies 0 < #[trigger] current_chain.blocks@[k].0.0 <= u64::MAX - 2560 by {
                        assert(nn[k] == current_chain.blocks@[k].0);
                        if k < before.blocks@.len() {
                            assert(nn[k] == o[k]);
                            assert(o[k] == before.blocks@[k].0);
                        }
                    }
                }
                let ghost f = *current_chain;
                let w2 = write_chain_entry(blowfish, current_chain, chain_entry_idx - 1);
                let ghost gw2 = w2;
                ops.push(w2);
                end = end + 2560;
                proof {
                    let key = cipher_key(blowfish);
                    assert(index.chains() == m_b.insert(cur.0, f));
                    let L = chain_entries(before).len();
                    assert(chain_entries(f) == chain_entries(before).update(L - 1, PackEntry { entry: chain_entries(before).last().entry, next_block: Some(offset) }) + gblock.entries@);
                    assert forall|jj: int| L <= jj < L + 20 implies (#[trigger] chain_entries(f)[jj]).entry is None && chain_entries(f)[jj].next_block is None by {
                        assert(chain_entries(f)[jj] == gblock.entries@[jj - L]);
                    }
                    assert forall|jj: int| 0 <= jj < L - 1 implies #[trigger] chain_entries(f)[jj] == chain_entries(before)[jj] by {}
                    assert(ops@ == ops_b.push(gw).push(gw2));
                    assert forall|st: Seq<u8>| st.len() == stream_len && #[trigger] holds_index(key, st, m0) && index_blocks_apart(m0) implies {
                        &&& apply_writes(st, ops@).len() == end
                        &&& holds_index(key, apply_writes(st, ops@), index.chains())
                        &&& index_blocks_apart(index.chains())
                    } by {
                        let t = apply_writes(st, ops_b);
                        assert(t.len() == end_b && holds_index(key, t, m_b) && index_blocks_apart(m_b));
                        lemma_append_keeps_stream(key, t, m_b, cur.0, f, gw, gw2);
                        lemma_apply_writes_push(st, ops_b, gw);
                        lemma_apply_writes_push(st, ops_b.push(gw), gw2);
                    }
                    if creatable(m0, chain.0, comps, stream_len) {
                        let s0 = chain_entries(before);
                        let s1 = chain_entries(f);
                        assert forall|jj: int| 0 <= jj < s0.len() implies (#[trigger] s1[jj]).entry == s0[jj].entry by {
                            if jj < s0.len() - 1 {
                                assert(s1[jj] == s0[jj]);
                            }
                        }
                        lemma_extended_lookups(s0, s1);
                        assert(index.chains().dom() =~= m_b.dom());
                        lemma_resolve_frame(m_b, index.chains(), cur.0, chain.0, comps.take(n + j));
                        assert forall|k: int| n <= k < n + j implies #[trigger] names_exactly(index.chains(), chain.0, comps, k) by {
                            lemma_names_kept_change(m_b, index.chains(), cur.0, chain.0, comps, k);
                        }
                    }
                }
                chain_entry_idx
            },
        };
        if j + 1 < count {
            let ghost ops_b = ops@;
            let ghost m_b = index.chains();
            let ghost end_b = end;
            let ghost cur_b = cur;
            let current_chain = index.get_mut(cur).unwrap();
            proof {
                assert(chain_wf(*current_chain));
                assert(chain_offsets_fit(*current_chain));
            }
            let ghost o = *current_chain;
            let (block_chain, w_block, w_entry) = match allocate_new_block_chain(blowfish, end, current_chain, component, chain_entry_idx) {
                Some(x) => x,
                None => {
                    return Err(OpenError::EmptyStream);
                },
            };
            let ghost f = *current_chain;
            let ghost gwb = w_block;
            let ghost gwe = w_entry;
            ops.push(w_block);
            ops.push(w_entry);
            let new_chain = block_chain.chain_index();
            let ghost nc = block_chain;
            index.insert(new_chain, block_chain);
            cur = new_chain;
            end = end + 2560;
            proof {
                let key = cipher_key(blowfish);
                assert(new_chain.0 == end_b);
                assert(index.chains() == m_b.insert(cur_b.0, f).insert(end_b, nc));
                assert(ops@ == ops_b.push(gwb).push(gwe));
                assert forall|st: Seq<u8>| st.len() == stream_len && #[trigger] holds_index(key, st, m0) && index_blocks_apart(m0) implies {
                    &&& apply_writes(st, ops@).len() == end
                    &&& holds_index(key, apply_writes(st, ops@), index.chains())
                    &&& index_blocks_apart(index.chains())
                } by {
                    let t = apply_writes(st, ops_b);
                    assert(t.len() == end_b && holds_index(key, t, m_b) && index_blocks_apart(m_b));
                    lemma_new_dir_keeps_stream(key, t, m_b, cur_b.0, f, nc, chain_entry_idx as int, gwb, gwe);
                    lemma_apply_writes_push(st, ops_b, gwb);
                    lemma_apply_writes_push(st, ops_b.push(gwb), gwe);
                }
                if creatable(m0, chain.0, comps, stream_len) {
                    let name = comps[n + j];
                    let ms = m_b.insert(cur_b.0, f);
                    let so = chain_entries(o);
                    let sf = chain_entries(f);
                    assert(component == components@[j as int]);
                    assert(component.spec_bytes() == name);
                    assert(o == m_b[cur_b.0]);
                    lemma_new_name_lookups(so, sf, chain_entry_idx as int, name);
                    assert(ms.dom() =~= m_b.dom());
                    lemma_resolve_frame(m_b, ms, cur_b.0, chain.0, comps.take(n + j));
                    assert(entry_children(sf[chain_entry_idx as int]) == Some(ChainOffset(end_b)));
                    assert(lookup_dir(sf, name) == Ok::<ChainOffset, ChainLookupError>(ChainOffset(end_b)));
                    assert(resolve_step(ms, cur_b.0, name) == Ok::<u64, ChainLookupError>(end_b));
                    lemma_resolve_push(ms, chain.0, comps.take(n + j), name);
                    assert(comps.take(n + j + 1) =~= comps.take(n + j).push(name));
                    assert(!ms.contains_key(end_b));
                    lemma_resolve_insert(ms, end_b, nc, chain.0, comps.take(n + j + 1));
                    lemma_fresh_chain_names(nc, end_b, o.blocks@[0].0.0, comps[n + j + 1]);
                    assert forall|jj: int| 0 <= jj < so.len() && (#[trigger] so[jj]).entry is Some implies sf[jj].entry == so[jj].entry by {
                        if jj == chain_entry_idx {
                            assert(so[jj].entry is None);
                        }
                    }
                    assert forall|k: int| n <= k < n + j + 1 implies #[trigger] names_exactly(index.chains(), chain.0, comps, k) by {
                        if k < n + j {
                            lemma_names_kept_change(m_b, ms, cur_b.0, chain.0, comps, k);
                            lemma_names_kept_insert(ms, end_b, nc, chain.0, comps, k);
                        } else {
                            lemma_resolve_insert(ms, end_b, nc, chain.0, comps.take(n + j));
                            assert(index.chains()[cur_b.0] == f);
                            assert(sf[chain_entry_idx as int].entry->0.name@ == component@);
                        }
                    }
                }
            }
        } else {
            proof {
                assert(component@ == components@[j as int]@);
                assert(component.spec_bytes() == comps.last());
                assert(chain_entries(index.chains()[cur.0])[chain_entry_idx as int].entry is None);
                if creatable(m0, chain.0, comps, stream_len) {
                    assert(comps.take(n + j) =~= comps.drop_last());
                }
                if n + 1 == comps.len() {
                    assert(cur.0 == start_chain.0);
                    assert(placed_in_chain(m0[start_chain.0], index.chains()[start_chain.0], chain_entry_idx as int, stream_len));
                    assert(index.chains().dom() == m0.dom());
                    assert(placement_writes(cipher_key(blowfish), m0[start_chain.0], index.chains()[start_chain.0], stream_len, ops@, end));
                }
            }
            return Ok((cur, chain_entry_idx, component, ops, end));
        }
        j = j + 1;
    }
    Err(OpenError::AlreadyExists)
}


/// The absolute path names an existing entry.
pub open spec fn names_entry(m: Map<u64, PackBlockChain>, path: Seq<u8>) -> bool {
    root_entry(m, path) matches Ok(Some(x))
}

/// `e` holds a new file named `name` (by its stored bytes) that has no data yet: size 0, the
/// root chain's offset as its data offset, and default times.
pub open spec fn new_file_entry(e: PackEntry, name: Seq<u8>) -> bool {
    e.entry matches Some(ne) && name_bytes(ne.name@) == name
        && ne.kind == (DirectoryOrFile::File { pos_data: StreamOffset(PK2_ROOT_OFFSET), size: 0u32 })
        && ne.access_time == FILETIME::from_ticks(MS_EPOCH) && ne.create_time == FILETIME::from_ticks(MS_EPOCH)
        && ne.modify_time == FILETIME::from_ticks(MS_EPOCH)
}

/// What creating the file `name` in chain `o` leaves in that chain `f`, at index `i`: the
/// first empty entry takes the file when there is one; otherwise a block appended at `end` and
/// linked from the old last entry does, at its first entry.
pub open spec fn file_placed(o: PackBlockChain, f: PackBlockChain, i: int, end: u64, name: Seq<u8>) -> bool {
    let s = chain_entries(o);
    let t = chain_entries(f);
    if first_empty(s) < s.len() {
        &&& i == first_empty(s)
        &&& chain_block_offsets(f) == chain_block_offsets(o)
        &&& t.len() == s.len()
        &&& forall|j: int| 0 <= j < s.len() && j != i ==> #[trigger] t[j] == s[j]
        &&& new_file_entry(t[i], name)
        &&& t[i].next_block == s[i].next_block
    } else {
        &&& i == s.len()
        &&& chain_block_offsets(f) == chain_block_offsets(o).push(BlockOffset(end))
        &&& t.len() == s.len() + 20
        &&& forall|j: int| 0 <= j < s.len() - 1 ==> #[trigger] t[j] == s[j]
        &&& t[s.len() - 1] == (PackEntry { entry: s[s.len() - 1].entry, next_block: Some(BlockOffset(end)) })
        &&& new_file_entry(t[i], name)
        &&& t[i].next_block is None
        &&& forall|j: int| s.len() < j < s.len() + 20 ==> (#[trigger] t[j]).entry is None && t[j].next_block is None
    }
}

/// Creating a file took the index from `m0` to `m1` with the writes `ops` for a stream of
/// `stream_len` bytes that becomes `new_len` bytes long: the writes keep a stream in step with
/// the index up to the file's own entry, which is written once the file's data is.
pub open spec fn file_created(
    key: Option<Seq<u8>>,
    m0: Map<u64, PackBlockChain>,
    m1: Map<u64, PackBlockChain>,
    stream_len: u64,
    c: u64,
    i: int,
    ops: Seq<WriteOp>,
    new_len: u64,
) -> bool {
    exists|mid: Map<u64, PackBlockChain>| {
        &&& index_wf(mid)
        &&& writes_keep_stream(key, m0, mid, stream_len, ops, new_len)
        &&& entry_changed(mid, m1, c, i)
    }
}

/// Creates an empty file at an absolute path, with the directories on the way that do not
/// exist yet. A path that already names an entry is refused. New blocks go at the end of a stream of `stream_len` bytes. Returns the chain
/// and index of the file's entry, the writes to perform in order, and the length of the stream
/// after them; the entry itself is written once the file's data is.
pub fn create_file(
    index: &mut ChainIndex,
    blowfish: Option<&Blowfish>,
    stream_len: u64,
    path: &str,
) -> (r: Result<(ChainOffset, usize, Vec<WriteOp>, u64), OpenError>)
    requires
        index_wf(old(index).chains()),
        index_offsets_fit(old(index).chains()),
        index_room_for(old(index).chains(), path.spec_bytes().len() + 1 as int),
        cipher_wf(blowfish),
        stream_len + 5120 * (path.spec_bytes().len() + 1) <= u64::MAX - 2560,
        20 * (path.spec_bytes().len() + 3) <= usize::MAX,
    ensures
        index_wf(final(index).chains()),
        index_offsets_fit(final(index).chains()),
        strip_root(path.spec_bytes()) is None ==> r == Err::<(ChainOffset, usize, Vec<WriteOp>, u64), OpenError>(OpenError::InvalidPath)
            && final(index).chains() == old(index).chains(),
        names_entry(old(index).chains(), path.spec_bytes()) ==> r == Err::<(ChainOffset, usize, Vec<WriteOp>, u64), OpenError>(OpenError::AlreadyExists)
            && final(index).chains() == old(index).chains(),
        r is Ok ==> !names_entry(old(index).chains(), path.spec_bytes()),
        strip_root(path.spec_bytes()) matches Some(p) ==> !names_entry(old(index).chains(), path.spec_bytes()) ==> {
            let comps = split_path(p);
            let w = create_walk(old(index).chains(), ChainOffset(PK2_ROOT_OFFSET), p);
            &&& w matches Err(e) ==> r == Err::<(ChainOffset, usize, Vec<WriteOp>, u64), OpenError>(OpenError::InvalidInput(e))
            &&& w matches Ok((c0, n)) ==> n <= comps.len()
            &&& w matches Ok((c0, n)) ==> (n == comps.len() ==> r == Err::<(ChainOffset, usize, Vec<WriteOp>, u64), OpenError>(OpenError::AlreadyExists))
            &&& w matches Ok((c0, n)) ==> (n < comps.len() && stream_len != 0 ==> r is Ok)
            &&& w matches Ok((c0, n)) ==> (n < comps.len() ==> (r matches Err(e) ==> e == OpenError::EmptyStream && stream_len == 0))
        },
        r matches Ok((c, i, ops, new_len)) ==> file_created(cipher_key(blowfish), old(index).chains(), final(index).chains(), stream_len, c.0, i as int, ops@, new_len),
        r matches Ok((c, i, ops, new_len)) ==> strip_root(path.spec_bytes()) matches Some(p)
            ==> creatable(old(index).chains(), PK2_ROOT_OFFSET, split_path(p), stream_len)
            ==> root_entry(final(index).chains(), path.spec_bytes()) == Ok::<Option<(u64, int)>, OpenError>(Some((c.0, i as int)))
                && entry_is_file(entry_at(final(index).chains(), c.0, i as int)),
        r matches Ok((c, i, ops, new_len)) ==> strip_root(path.spec_bytes()) matches Some(p)
            ==> creatable(old(index).chains(), PK2_ROOT_OFFSET, split_path(p), stream_len)
            ==> (create_walk(old(index).chains(), ChainOffset(PK2_ROOT_OFFSET), p) matches Ok((c0, n))
                && forall|k: int| n <= k < split_path(p).len() - 1
                    ==> #[trigger] names_exactly(final(index).chains(), PK2_ROOT_OFFSET, split_path(p), k)),
        r matches Ok((c, i, ops, new_len)) ==> strip_root(path.spec_bytes()) matches Some(p)
            && create_walk(old(index).chains(), ChainOffset(PK2_ROOT_OFFSET), p) matches Ok((c0, n)) && {
            let comps = split_path(p);
            &&& n < comps.len()
            &&& final(index).chains().contains_key(c.0)
            &&& i < chain_entries(final(index).chains()[c.0]).len()
            &&& new_file_entry(chain_entries(final(index).chains()[c.0])[i as int], comps.last())
            &&& old(index).chains().dom().subset_of(final(index).chains().dom())
            &&& forall|k: u64| k != c0 && k < stream_len && #[trigger] old(index).chains().contains_key(k)
                ==> final(index).chains()[k] == old(index).chains()[k]
            &&& stream_len <= new_len
            &&& n + 1 == comps.len() ==> c.0 == c0
                && file_placed(old(index).chains()[c0], final(index).chains()[c0], i as int, stream_len, comps.last())
                && placement_writes(cipher_key(blowfish), old(index).chains()[c0], final(index).chains()[c0], stream_len, ops@, new_len)
                && final(index).chains().dom() == old(index).chains().dom()
                && forall|k: u64| k != c0 && #[trigger] old(index).chains().contains_key(k)
                    ==> final(index).chains()[k] == old(index).chains()[k]
        },
{
    let p = match check_root(path) {
        Some(p) => p,
        None => {
            return Err(OpenError::InvalidPath);
        },
    };
    match root_resolve_path_to_entry_and_parent(index, path) {
        Ok(Some(_)) => {
            return Err(OpenError::AlreadyExists);
        },
        _ => {},
    }
    let ghost m0 = index.chains();
    let (c, i, name, ops, new_len) = match create_entry_at(index, blowfish, stream_len, ChainOffset(PK2_ROOT_OFFSET), p) {
        Ok(x) => x,
        Err(e) => {
            return Err(e);
        },
    };
    let ghost m1 = index.chains();
    let e = index.get_entry_mut(c, i).unwrap();
    let next = e.next_block();
    *e = PackEntry::new_file(name, StreamOffset(PK2_ROOT_OFFSET), 0, next);
    proof {
        let m2 = index.chains();
        assert(m2.contains_key(c.0));
        assert(chain_offsets_fit(m2[c.0])) by {
            assert forall|k: int| 0 <= k < m2[c.0].blocks@.len() implies 0 < #[trigger] m2[c.0].blocks@[k].0.0 <= u64::MAX - 2560 by {
                assert(chain_block_offsets(m2[c.0]).len() == chain_block_offsets(m1[c.0]).len());
                assert(chain_block_offsets(m2[c.0])[k] == chain_block_offsets(m1[c.0])[k]);
                assert(m1.contains_key(c.0));
                assert(chain_offsets_fit(m1[c.0]));
            }
        }
        assert(index_offsets_fit(m2));
        assert(entry_changed(m1, m2, c.0, i as int)) by {
            assert(chain_entries(m2[c.0]) =~= chain_entries(m1[c.0]).update(i as int, chain_entries(m2[c.0])[i as int]));
        }
        assert(file_created(cipher_key(blowfish), m0, m2, stream_len, c.0, i as int, ops@, new_len));
        let pb = p.spec_bytes();
        let comps = split_path(pb);
        assert(strip_root(path.spec_bytes()) == Some(pb));
        let w = create_walk(m0, ChainOffset(PK2_ROOT_OFFSET), pb);
        let c0 = w->Ok_0.0;
        let n = w->Ok_0.1;
        assert(name_bytes(name@) == comps.last());
        assert(new_file_entry(chain_entries(m2[c.0])[i as int], comps.last()));
        assert(forall|k: u64| k != c0 && k < stream_len && #[trigger] m0.contains_key(k) ==> m2[k] == m0[k]);
        if creatable(m0, PK2_ROOT_OFFSET, comps, stream_len) {
            let last = comps.last();
            let t1 = chain_entries(m1[c.0]);
            let t2 = chain_entries(m2[c.0]);
            assert(t2 == t1.update(i as int, t2[i as int]));
            crate::format::chain_index::lemma_walk_resolves(m0, PK2_ROOT_OFFSET, comps);
            crate::format::chain_index::lemma_split_path_len(pb);
            lemma_new_name_lookups(t1, t2, i as int, last);
            lemma_resolve_frame(m1, m2, c.0, PK2_ROOT_OFFSET, comps.drop_last());
            assert forall|jj: int| 0 <= jj < t1.len() && (#[trigger] t1[jj]).entry is Some implies t2[jj].entry == t1[jj].entry by {
                if jj == i {
                    assert(t1[jj].entry is None);
                }
            }
            crate::format::chain_index::lemma_walk_bound(m0, PK2_ROOT_OFFSET, comps);
            assert forall|k: int| n <= k < comps.len() - 1 implies #[trigger] names_exactly(m2, PK2_ROOT_OFFSET, comps, k) by {
                lemma_names_kept_change(m1, m2, c.0, PK2_ROOT_OFFSET, comps, k);
            }
            assert(last.len() > 0);
            crate::format::path::lemma_split_path_last(pb);
            let k = crate::format::path::last_sep(pb);
            if k >= 0 {
                assert(comps.drop_last() =~= split_path(pb.take(k)));
                assert(last == pb.skip(k + 1));
                assert(resolve_path(m2, PK2_ROOT_OFFSET, pb.take(k)) == Ok::<u64, ChainLookupError>(c.0));
            } else {
                assert(comps == seq![pb]);
                assert(comps.drop_last().len() == 0);
            }
            assert(pb.len() > 0);
            assert(resolve_parent(m2, PK2_ROOT_OFFSET, pb) == Ok::<(u64, Seq<u8>), ChainLookupError>((c.0, last)));
            assert(resolve_entry(m2, PK2_ROOT_OFFSET, pb) == Ok::<(u64, int), ChainLookupError>((c.0, i as int)));
        }
        if n + 1 == comps.len() {
            crate::format::chain_index::lemma_walk_in_index(m0, PK2_ROOT_OFFSET, comps);
            assert(m0.contains_key(c0));
            assert(chain_wf(m0[c0]));
            let so = chain_entries(m0[c0]);
            let sm = chain_entries(m1[c0]);
            let t = chain_entries(m2[c0]);
            assert(t == sm.update(i as int, t[i as int]));
            assert(chain_block_offsets(m2[c0]) == chain_block_offsets(m1[c0]));
            if first_empty(so) < so.len() {
                assert(sm == so);
                assert forall|j: int| 0 <= j < so.len() && j != i implies #[trigger] t[j] == so[j] by {
                    assert(t[j] == sm[j]);
                }
            } else {
                assert forall|j: int| 0 <= j < so.len() - 1 implies #[trigger] t[j] == so[j] by {
                    assert(t[j] == sm[j]);
                }
                assert(t[so.len() - 1] == sm[so.len() - 1]);
                let kb = (so.len() - 1) / 20;
                let nb = m0[c0].blocks@.len();
                assert(so.len() == nb * 20);
                assert(kb == nb - 1) by (nonlinear_arith)
                    requires kb == (so.len() - 1) / 20, so.len() == nb * 20, nb > 0;
                assert(chain_block_offsets(m1[c0]).len() == nb + 1);
                assert(m1[c0].blocks@.len() == nb + 1);
                assert(m2[c0].blocks@.len() == nb + 1);
                assert(chain_block_offsets(m2[c0])[kb] == chain_block_offsets(m1[c0])[kb]);
                assert(m2[c0].blocks@[kb].0 == m1[c0].blocks@[kb].0);
                assert(entry_stream_offset(m2[c0], so.len() - 1) == entry_stream_offset(m1[c0], so.len() - 1));
                assert forall|j: int| so.len() < j < so.len() + 20 implies (#[trigger] t[j]).entry is None && t[j].next_block is None by {
                    assert(t[j] == sm[j]);
                }
            }
            assert(file_placed(m0[c0], m2[c0], i as int, stream_len, comps.last()));
            assert(placement_writes(cipher_key(blowfish), m0[c0], m2[c0], stream_len, ops@, new_len));
        }
    }
    Ok((c, i, ops, new_len))
}

proof fn lemma_first_empty(s: Seq<PackEntry>)
    ensures
        0 <= first_empty(s) <= s.len(),
        forall|j: int| 0 <= j < first_empty(s) ==> (#[trigger] s[j]).entry is Some,
        first_empty(s) < s.len() ==> s[first_empty(s)].entry is None,
    decreases s.len(),
{
    if s.len() > 0 && s[0].entry is Some {
        lemma_first_empty(s.drop_first());
        assert forall|j: int| 0 <= j < first_empty(s) implies (#[trigger] s[j]).entry is Some by {
            if j > 0 {
                assert(s[j] == s.drop_first()[j - 1]);
            }
        }
    }
}

proof fn lemma_eq_ignore_case_via(a: Seq<u8>, b: Seq<u8>, c: Seq<u8>)
    requires
        eq_ignore_ascii_case(a, b),
        eq_ignore_ascii_case(c, b),
    ensures
        eq_ignore_ascii_case(a, c),
{
    assert forall|k: int| 0 <= k < a.len() implies #[trigger] ascii_lower(a[k]) == ascii_lower(c[k]) by {
        assert(ascii_lower(a[k]) == ascii_lower(b[k]));
        assert(ascii_lower(c[k]) == ascii_lower(b[k]));
    }
}

/// Placing a file under a name that no entry of the chain has: every directory lookup that
/// succeeded before gives the same chain, and the name now finds the file.
proof fn lemma_placed_lookups(o: PackBlockChain, f: PackBlockChain, i: int, end: u64, name: Seq<u8>)
    requires
        chain_wf(o),
        file_placed(o, f, i, end, name),
        first_match(chain_entries(o), name) == chain_entries(o).len(),
    ensures
        forall|q: Seq<u8>| (#[trigger] lookup_dir(chain_entries(o), q)) is Ok
            ==> lookup_dir(chain_entries(f), q) == lookup_dir(chain_entries(o), q),
        first_match(chain_entries(f), name) == i,
        0 <= i < chain_entries(f).len(),
{
    let s = chain_entries(o);
    let t = chain_entries(f);
    lemma_first_empty(s);
    assert forall|j: int| 0 <= j < s.len() && j != i implies (#[trigger] t[j]).entry == s[j].entry by {
        if first_empty(s) < s.len() {
            assert(t[j] == s[j]);
        } else if j < s.len() - 1 {
            assert(t[j] == s[j]);
        }
    }
    lemma_new_name_lookups(s, t, i, name);
}

/// Resolving a path that succeeded goes the same way after a change to one chain that keeps
/// every directory lookup in it that succeeded.
proof fn lemma_resolve_frame(m0: Map<u64, PackBlockChain>, m1: Map<u64, PackBlockChain>, c0: u64, cur: u64, cs: Seq<Seq<u8>>)
    requires
        resolve_components(m0, cur, cs) is Ok,
        m1.dom() == m0.dom(),
        forall|k: u64| k != c0 && #[trigger] m0.contains_key(k) ==> m1[k] == m0[k],
        forall|q: Seq<u8>| (#[trigger] lookup_dir(chain_entries(m0[c0]), q)) is Ok
            ==> lookup_dir(chain_entries(m1[c0]), q) == lookup_dir(chain_entries(m0[c0]), q),
    ensures
        resolve_components(m1, cur, cs) == resolve_components(m0, cur, cs),
    decreases cs.len(),
{
    if cs.len() > 0 {
        assert(resolve_step(m0, cur, cs[0]) is Ok);
        if cur == c0 {
            assert(lookup_dir(chain_entries(m0[c0]), cs[0]) is Ok);
        } else {
            assert(m1[cur] == m0[cur]);
        }
        assert(resolve_step(m1, cur, cs[0]) == resolve_step(m0, cur, cs[0]));
        lemma_resolve_frame(m0, m1, c0, resolve_step(m0, cur, cs[0])->Ok_0, cs.drop_first());
    }
}

/// Entries that keep the contents of every entry (links aside) and add only empty ones after
/// them answer every lookup as before, and a name that matched no entry still matches none.
proof fn lemma_extended_lookups(s: Seq<PackEntry>, t: Seq<PackEntry>)
    requires
        s.len() <= t.len(),
        forall|j: int| 0 <= j < s.len() ==> (#[trigger] t[j]).entry == s[j].entry,
        forall|j: int| s.len() <= j < t.len() ==> (#[trigger] t[j]).entry is None,
    ensures
        forall|q: Seq<u8>| #[trigger] lookup_dir(t, q) == lookup_dir(s, q),
        forall|q: Seq<u8>| first_match(s, q) == s.len() ==> #[trigger] first_match(t, q) == t.len(),
        forall|q: Seq<u8>| first_match(s, q) < s.len() ==> #[trigger] first_match(t, q) == first_match(s, q),
{
    assert forall|q: Seq<u8>| #[trigger] first_match(t, q) == if first_match(s, q) < s.len() { first_match(s, q) } else { t.len() as int } by {
        lemma_first_match(s, q);
        let idx = first_match(s, q);
        if idx < s.len() {
            assert forall|j: int| 0 <= j < idx implies !#[trigger] entry_name_matches(t[j], q) by {
                assert(t[j].entry == s[j].entry);
                assert(!entry_name_matches(s[j], q));
            }
            assert(t[idx].entry == s[idx].entry);
            lemma_first_match_at(t, q, idx);
        } else {
            assert forall|j: int| 0 <= j < t.len() implies !#[trigger] entry_name_matches(t[j], q) by {
                if j < s.len() {
                    assert(t[j].entry == s[j].entry);
                    assert(!entry_name_matches(s[j], q));
                }
            }
            lemma_first_match_at(t, q, t.len() as int);
        }
    }
    assert forall|q: Seq<u8>| #[trigger] lookup_dir(t, q) == lookup_dir(s, q) by {
        lemma_first_match(s, q);
        assert(first_match(t, q) == if first_match(s, q) < s.len() { first_match(s, q) } else { t.len() as int });
        if first_match(s, q) < s.len() {
            assert(t[first_match(s, q)].entry == s[first_match(s, q)].entry);
        }
    }
    assert forall|q: Seq<u8>| first_match(s, q) == s.len() implies #[trigger] first_match(t, q) == t.len() by {
        assert(first_match(t, q) == if first_match(s, q) < s.len() { first_match(s, q) } else { t.len() as int });
    }
}

/// Putting an entry named `name` at `i`, where there was none (or past the end of the old
/// entries, the rest of which are empty), when no entry had that name: every directory lookup
/// that succeeded before gives the same chain, and the name now finds the entry at `i`.
proof fn lemma_new_name_lookups(s: Seq<PackEntry>, t: Seq<PackEntry>, i: int, name: Seq<u8>)
    requires
        s.len() <= t.len(),
        0 <= i < t.len(),
        forall|j: int| 0 <= j < s.len() && j != i ==> (#[trigger] t[j]).entry == s[j].entry,
        forall|j: int| s.len() <= j < t.len() && j != i ==> (#[trigger] t[j]).entry is None,
        i < s.len() ==> s[i].entry is None,
        t[i].entry matches Some(ne) && name_bytes(ne.name@) == name,
        first_match(s, name) == s.len(),
    ensures
        forall|q: Seq<u8>| (#[trigger] lookup_dir(s, q)) is Ok ==> lookup_dir(t, q) == lookup_dir(s, q),
        forall|q: Seq<u8>| first_match(s, q) < s.len() ==> #[trigger] first_match(t, q) == first_match(s, q),
        first_match(t, name) == i,
{
    lemma_first_match(s, name);
    let ni = t[i].entry->0;
    assert forall|q: Seq<u8>| first_match(s, q) < s.len() implies #[trigger] first_match(t, q) == first_match(s, q) by {
        lemma_first_match(s, q);
        let idx = first_match(s, q);
        if eq_ignore_ascii_case(name, q) {
            let ne = s[idx].entry->0;
            lemma_eq_ignore_case_via(name_bytes(ne.name@), q, name);
            assert(entry_name_matches(s[idx], name));
        }
        assert(!entry_name_matches(t[i], q));
        assert(idx != i);
        assert forall|j: int| 0 <= j < idx implies !#[trigger] entry_name_matches(t[j], q) by {
            if j != i {
                assert(t[j].entry == s[j].entry);
                assert(!entry_name_matches(s[j], q));
            }
        }
        assert(t[idx].entry == s[idx].entry);
        assert(entry_name_matches(t[idx], q));
        lemma_first_match_at(t, q, idx);
    }
    assert forall|q: Seq<u8>| (#[trigger] lookup_dir(s, q)) is Ok implies lookup_dir(t, q) == lookup_dir(s, q) by {
        lemma_first_match(s, q);
        let idx = first_match(s, q);
        if eq_ignore_ascii_case(name, q) {
            let ne = s[idx].entry->0;
            lemma_eq_ignore_case_via(name_bytes(ne.name@), q, name);
            assert(entry_name_matches(s[idx], name));
        }
        assert(!entry_name_matches(t[i], q));
        assert(idx != i);
        assert forall|j: int| 0 <= j < idx implies !#[trigger] entry_name_matches(t[j], q) by {
            if j != i {
                assert(t[j].entry == s[j].entry);
                assert(!entry_name_matches(s[j], q));
            }
        }
        assert(t[idx].entry == s[idx].entry);
        assert(entry_name_matches(t[idx], q));
        lemma_first_match_at(t, q, idx);
    }
    assert forall|j: int| 0 <= j < i implies !#[trigger] entry_name_matches(t[j], name) by {
        if j < s.len() {
            assert(t[j].entry == s[j].entry);
            assert(!entry_name_matches(s[j], name));
        }
    }
    lemma_first_match_at(t, name, i);
}

/// Component `k` of `comps`, walked to from `chain`, is found in its directory by an entry
/// whose name is exactly that component.
pub open spec fn names_exactly(m: Map<u64, PackBlockChain>, chain: u64, comps: Seq<Seq<u8>>, k: int) -> bool {
    resolve_components(m, chain, comps.take(k)) matches Ok(d) && m.contains_key(d) && {
        let s = chain_entries(m[d]);
        let i = first_match(s, comps[k]);
        &&& i < s.len()
        &&& s[i].entry matches Some(ne) && name_bytes(ne.name@) == comps[k]
    }
}

/// A change to chain `c` that keeps every lookup that succeeded, every first match that was
/// found and the entries it found keeps a component found by its exact name.
proof fn lemma_names_kept_change(
    m0: Map<u64, PackBlockChain>,
    m1: Map<u64, PackBlockChain>,
    c: u64,
    chain: u64,
    comps: Seq<Seq<u8>>,
    k: int,
)
    requires
        0 <= k < comps.len(),
        names_exactly(m0, chain, comps, k),
        m1.dom() == m0.dom(),
        forall|key: u64| key != c && #[trigger] m0.contains_key(key) ==> m1[key] == m0[key],
        forall|q: Seq<u8>| (#[trigger] lookup_dir(chain_entries(m0[c]), q)) is Ok
            ==> lookup_dir(chain_entries(m1[c]), q) == lookup_dir(chain_entries(m0[c]), q),
        forall|q: Seq<u8>| first_match(chain_entries(m0[c]), q) < chain_entries(m0[c]).len()
            ==> #[trigger] first_match(chain_entries(m1[c]), q) == first_match(chain_entries(m0[c]), q),
        chain_entries(m0[c]).len() <= chain_entries(m1[c]).len(),
        forall|j: int| 0 <= j < chain_entries(m0[c]).len() && (#[trigger] chain_entries(m0[c])[j]).entry is Some
            ==> chain_entries(m1[c])[j].entry == chain_entries(m0[c])[j].entry,
    ensures
        names_exactly(m1, chain, comps, k),
{
    lemma_resolve_frame(m0, m1, c, chain, comps.take(k));
    let d = resolve_components(m0, chain, comps.take(k))->Ok_0;
    if d == c {
        let s = chain_entries(m0[c]);
        let i = first_match(s, comps[k]);
        lemma_first_match(s, comps[k]);
        assert(s[i].entry is Some);
        assert(chain_entries(m1[c])[i].entry == s[i].entry);
    }
}

/// Adding a chain at a key not yet used keeps a component found by its exact name.
proof fn lemma_names_kept_insert(m: Map<u64, PackBlockChain>, key: u64, v: PackBlockChain, chain: u64, comps: Seq<Seq<u8>>, k: int)
    requires
        0 <= k < comps.len(),
        !m.contains_key(key),
        names_exactly(m, chain, comps, k),
    ensures
        names_exactly(m.insert(key, v), chain, comps, k),
{
    lemma_resolve_insert(m, key, v, chain, comps.take(k));
    let d = resolve_components(m, chain, comps.take(k))->Ok_0;
    assert(m.insert(key, v)[d] == m[d]);
}

/// In the chain of a new directory no entry has a name other than `.` and `..`.
proof fn lemma_fresh_chain_names(c: PackBlockChain, self_off: u64, parent: u64, q: Seq<u8>)
    requires
        c.blocks@.len() == 1,
        fresh_dir_block(c.blocks@[0].1, self_off, parent),
        !dot_name(q),
    ensures
        first_match(chain_entries(c), q) == chain_entries(c).len(),
        chain_entries(c).len() == 20,
{
    let s = chain_entries(c);
    let b = c.blocks@[0].1;
    assert forall|j: int| 0 <= j < 20 implies !#[trigger] entry_name_matches(s[j], q) by {
        assert(s[j] == b.entries@[j]);
    }
    lemma_first_match_at(s, q, 20);
}

/// Resolving one more component continues from where the others led.
proof fn lemma_resolve_push(m: Map<u64, PackBlockChain>, cur: u64, cs: Seq<Seq<u8>>, x: Seq<u8>)
    ensures
        resolve_components(m, cur, cs.push(x)) == match resolve_components(m, cur, cs) {
            Ok(d) => resolve_step(m, d, x),
            Err(e) => Err(e),
        },
    decreases cs.len(),
{
    if cs.len() == 0 {
        assert(cs.push(x).drop_first() =~= Seq::<Seq<u8>>::empty());
        assert(cs.push(x)[0] == x);
        match resolve_step(m, cur, x) {
            Ok(d) => {
                assert(resolve_components(m, d, Seq::<Seq<u8>>::empty()) == Ok::<u64, ChainLookupError>(d));
            },
            Err(_) => {},
        }
    } else {
        assert(cs.push(x)[0] == cs[0]);
        assert(cs.push(x).drop_first() =~= cs.drop_first().push(x));
        match resolve_step(m, cur, cs[0]) {
            Ok(d) => lemma_resolve_push(m, d, cs.drop_first(), x),
            Err(_) => {},
        }
    }
}

/// Resolving a path that succeeded goes the same way after a new chain is added.
proof fn lemma_resolve_insert(m: Map<u64, PackBlockChain>, k: u64, v: PackBlockChain, cur: u64, cs: Seq<Seq<u8>>)
    requires
        !m.contains_key(k),
        resolve_components(m, cur, cs) is Ok,
    ensures
        resolve_components(m.insert(k, v), cur, cs) == resolve_components(m, cur, cs),
    decreases cs.len(),
{
    if cs.len() > 0 {
        assert(m.contains_key(cur));
        assert(m.insert(k, v)[cur] == m[cur]);
        assert(resolve_step(m.insert(k, v), cur, cs[0]) == resolve_step(m, cur, cs[0]));
        lemma_resolve_insert(m, k, v, resolve_step(m, cur, cs[0])->Ok_0, cs.drop_first());
    }
}

/// Creating a file at an absolute path whose directories all exist, and whose directory has
/// no entry of that name: afterwards the path names the new file, at the index where it was
/// placed.
pub proof fn lemma_create_file_then_open(
    m0: Map<u64, PackBlockChain>,
    m1: Map<u64, PackBlockChain>,
    end: u64,
    path: Seq<u8>,
    c0: u64,
    i: int,
)
    requires
        index_wf(m0),
        strip_root(path) is Some,
        create_walk(m0, ChainOffset(PK2_ROOT_OFFSET), strip_root(path)->0) == Ok::<(u64, int), ChainLookupError>(
            (c0, split_path(strip_root(path)->0).len() - 1),
        ),
        first_match(chain_entries(m0[c0]), split_path(strip_root(path)->0).last()) == chain_entries(m0[c0]).len(),
        file_placed(m0[c0], m1[c0], i, end, split_path(strip_root(path)->0).last()),
        m1.dom() == m0.dom(),
        forall|k: u64| k != c0 && #[trigger] m0.contains_key(k) ==> m1[k] == m0[k],
    ensures
        root_entry(m1, path) == Ok::<Option<(u64, int)>, OpenError>(Some((c0, i))),
        entry_is_file(entry_at(m1, c0, i)),
{
    let p = strip_root(path)->0;
    let comps = split_path(p);
    let n = comps.len() - 1;
    let last = comps.last();
    crate::format::chain_index::lemma_split_path_len(p);
    crate::format::chain_index::lemma_walk_resolves(m0, PK2_ROOT_OFFSET, comps);
    assert(m0.contains_key(c0) && last.len() > 0);
    assert(chain_wf(m0[c0]));
    lemma_placed_lookups(m0[c0], m1[c0], i, end, last);
    lemma_resolve_frame(m0, m1, c0, PK2_ROOT_OFFSET, comps.take(n));
    crate::format::path::lemma_split_path_last(p);
    let k = crate::format::path::last_sep(p);
    if k >= 0 {
        assert(comps.take(n) =~= split_path(p.take(k)));
        assert(last == p.skip(k + 1));
        assert(resolve_path(m1, PK2_ROOT_OFFSET, p.take(k)) == Ok::<u64, ChainLookupError>(c0));
    } else {
        assert(comps == seq![p]);
        assert(comps.take(0).len() == 0);
        assert(c0 == PK2_ROOT_OFFSET);
    }
    assert(p.len() > 0);
    assert(resolve_parent(m1, PK2_ROOT_OFFSET, p) == Ok::<(u64, Seq<u8>), ChainLookupError>((c0, last)));
    assert(resolve_entry(m1, PK2_ROOT_OFFSET, p) == Ok::<(u64, int), ChainLookupError>((c0, i)));
}

/// Emptying a file entry keeps every directory lookup in the chain that succeeded.
proof fn lemma_cleared_lookups(s: Seq<PackEntry>, t: Seq<PackEntry>, i: int)
    requires
        0 <= i < s.len(),
        entry_is_file(s[i]),
        t == s.update(i, PackEntry { entry: None, next_block: s[i].next_block }),
    ensures
        forall|q: Seq<u8>| (#[trigger] lookup_dir(s, q)) is Ok ==> lookup_dir(t, q) == lookup_dir(s, q),
{
    assert forall|q: Seq<u8>| (#[trigger] lookup_dir(s, q)) is Ok implies lookup_dir(t, q) == lookup_dir(s, q) by {
        lemma_first_match(s, q);
        let idx = first_match(s, q);
        assert(idx != i);
        assert forall|j: int| 0 <= j < idx implies !#[trigger] entry_name_matches(t[j], q) by {
            if j != i {
                assert(t[j] == s[j]);
                assert(!entry_name_matches(s[j], q));
            }
        }
        assert(t[idx] == s[idx]);
        lemma_first_match_at(t, q, idx);
    }
}

/// Deleting the file that an absolute path names: afterwards the path no longer names that
/// entry. It names the next entry of that name in the same directory if there is one, and
/// otherwise nothing is found.
pub proof fn lemma_delete_file_then_open(
    m0: Map<u64, PackBlockChain>,
    m1: Map<u64, PackBlockChain>,
    path: Seq<u8>,
    c: u64,
    i: int,
)
    requires
        index_wf(m0),
        root_entry(m0, path) == Ok::<Option<(u64, int)>, OpenError>(Some((c, i))),
        entry_is_file(entry_at(m0, c, i)),
        m1.dom() == m0.dom(),
        forall|k: u64| k != c && #[trigger] m0.contains_key(k) ==> m1[k] == m0[k],
        chain_entries(m1[c]) == chain_entries(m0[c]).update(
            i,
            PackEntry { entry: None, next_block: entry_at(m0, c, i).next_block },
        ),
    ensures
        ({
            let name = resolve_parent(m0, PK2_ROOT_OFFSET, strip_root(path)->0)->Ok_0.1;
            let t = chain_entries(m1[c]);
            let j = first_match(t, name);
            &&& i < j <= t.len()
            &&& root_entry(m1, path) == (if j < t.len() {
                Ok::<Option<(u64, int)>, OpenError>(Some((c, j)))
            } else {
                Err::<Option<(u64, int)>, OpenError>(OpenError::Lookup(ChainLookupError::NotFound))
            })
        }),
{
    let p = strip_root(path)->0;
    let name = resolve_parent(m0, PK2_ROOT_OFFSET, p)->Ok_0.1;
    let s = chain_entries(m0[c]);
    let t = chain_entries(m1[c]);
    assert(resolve_parent(m0, PK2_ROOT_OFFSET, p) == Ok::<(u64, Seq<u8>), ChainLookupError>((c, name)));
    assert(m0.contains_key(c));
    lemma_first_match(s, name);
    lemma_first_match(t, name);
    lemma_cleared_lookups(s, t, i);
    let k = crate::format::path::last_sep(p);
    if k >= 0 {
        lemma_resolve_frame(m0, m1, c, PK2_ROOT_OFFSET, split_path(p.take(k)));
    }
    assert(resolve_parent(m1, PK2_ROOT_OFFSET, p) == resolve_parent(m0, PK2_ROOT_OFFSET, p));
    let j = first_match(t, name);
    if j <= i {
        if j < i {
            assert(t[j] == s[j]);
        }
        assert(false);
    }
}

/// Deleting a file, in a stream that holds the index with no two blocks overlapping: the write
/// that deleting returns leaves the stream holding the changed index.
pub proof fn lemma_delete_file_keeps_stream(
    m0: Map<u64, PackBlockChain>,
    m1: Map<u64, PackBlockChain>,
    path: Seq<u8>,
    key: Option<Seq<u8>>,
    s: Seq<u8>,
    off: u64,
    data: Seq<u8>,
)
    requires
        index_wf(m0),
        index_wf(m1),
        index_offsets_fit(m0),
        holds_index(key, s, m0),
        index_blocks_apart(m0),
        file_deleted(m0, m1, path, key, off, data),
    ensures
        holds_index(key, apply_write(s, off as int, data), m1),
        index_blocks_apart(m1),
{
    let (c, i) = choose|c: u64, i: int| {
        &&& root_entry(m0, path) == Ok::<Option<(u64, int)>, OpenError>(Some((c, i)))
        &&& entry_is_file(entry_at(m0, c, i))
        &&& m1.dom() == m0.dom()
        &&& forall|k: u64| k != c && #[trigger] m0.contains_key(k) ==> m1[k] == m0[k]
        &&& chain_entries(m1[c]) == chain_entries(m0[c]).update(
            i,
            PackEntry { entry: None, next_block: entry_at(m0, c, i).next_block },
        )
        &&& chain_block_offsets(m1[c]) == chain_block_offsets(m0[c])
        &&& off == entry_stream_offset(m1[c], i)
        &&& data == entry_image(key, chain_entries(m1[c])[i])
    };
    let p = strip_root(path)->0;
    assert(resolve_entry(m0, PK2_ROOT_OFFSET, p) == Ok::<(u64, int), ChainLookupError>((c, i)));
    assert(m0.contains_key(c));
    assert(0 <= i < chain_entries(m0[c]).len()) by {
        lemma_first_match(chain_entries(m0[c]), resolve_parent(m0, PK2_ROOT_OFFSET, p)->Ok_0.1);
    }
    assert(m1.contains_key(c));
    assert(chain_wf(m1[c]));
    assert(chain_offsets_fit(m0[c]));
    lemma_index_entry_write(key, s, m0, m1, c, i);
}

} // verus!
