//! The in-memory index of all chains of an archive, and path resolution over it.

use vstd::prelude::*;
use vstd::string::StringSliceAdditionalSpecFns;
use crate::error::ChainLookupError;
use crate::format::block_chain::{
    PackBlock, PackBlockChain, block_parse_ok, block_parsed_from, block_wf, chain_block_offsets,
    chain_entries, chain_wf, entry_chunk, first_bad_entry, first_match, lemma_first_match, lookup_dir,
};
use crate::format::entry::{InvalidPackEntryType, PackEntry, entry_children, entry_name_matches};
use crate::format::path::{
    find_first_sep, find_last_sep, first_sep, is_sep, last_sep, lemma_first_sep, lemma_last_sep,
    skip_ascii, split_path, split_str_at,
};
use crate::format::{BlockOffset, ChainOffset};

verus! {

/// The offset of the root chain: right after the header.
pub const PK2_ROOT_OFFSET: u64 = 256u64;

/// The hash map of chains, keyed by chain offset.
#[verifier::external_body]
pub struct ChainTable {
    map: hashbrown::HashMap<u64, PackBlockChain, rustc_hash::FxBuildHasher>,
}

/// What the chain table holds.
pub uninterp spec fn chain_table_contents(t: ChainTable) -> Map<u64, PackBlockChain>;

/// `hashbrown::HashMap::with_hasher(FxBuildHasher)`: an empty map.
#[verifier::external_body]
fn table_new() -> (r: ChainTable)
    ensures
        chain_table_contents(r) =~= Map::empty(),
{
    ChainTable { map: hashbrown::HashMap::with_hasher(rustc_hash::FxBuildHasher) }
}

/// `hashbrown::HashMap::get`: the value stored under `k`, if any.
#[verifier::external_body]
fn table_get(t: &ChainTable, k: u64) -> (r: Option<&PackBlockChain>)
    ensures
        r == (if chain_table_contents(*t).contains_key(k) {
            Some(&chain_table_contents(*t)[k])
        } else {
            None
        }),
{
    t.map.get(&k)
}

/// `hashbrown::HashMap::get_mut`: the value stored under `k`, for changing in place.
#[verifier::external_body]
fn table_get_mut(t: &mut ChainTable, k: u64) -> (r: Option<&mut PackBlockChain>)
    ensures
        chain_table_contents(*old(t)).contains_key(k) ==> (r matches Some(c) && *c
            == chain_table_contents(*old(t))[k] && chain_table_contents(*final(t))
            == chain_table_contents(*old(t)).insert(k, *final(c))),
        !chain_table_contents(*old(t)).contains_key(k) ==> r is None && chain_table_contents(
            *final(t),
        ) == chain_table_contents(*old(t)),
{
    t.map.get_mut(&k)
}

/// `hashbrown::HashMap::insert`: stores `v` under `k`, replacing what was there.
#[verifier::external_body]
fn table_insert(t: &mut ChainTable, k: u64, v: PackBlockChain)
    ensures
        chain_table_contents(*final(t)) == chain_table_contents(*old(t)).insert(k, v),
{
    t.map.insert(k, v);
}

/// `hashbrown::HashMap::contains_key`.
#[verifier::external_body]
fn table_contains_key(t: &ChainTable, k: u64) -> (r: bool)
    ensures
        r == chain_table_contents(*t).contains_key(k),
{
    t.map.contains_key(&k)
}

/// Every chain of `m` occurs in `v`.
#[verifier::opaque]
pub open spec fn lists_every_chain(v: Seq<&PackBlockChain>, m: Map<u64, PackBlockChain>) -> bool {
    forall|k: u64| #[trigger] m.contains_key(k) ==> exists|j: int| 0 <= j < v.len() && *v[j] == m[k]
}

/// Every element of `v` is a chain of `m`.
#[verifier::opaque]
pub open spec fn lists_only_chains(v: Seq<&PackBlockChain>, m: Map<u64, PackBlockChain>) -> bool {
    forall|j: int| 0 <= j < v.len() ==> exists|k: u64| m.contains_key(k) && #[trigger] v[j] == &m[k]
}

/// `hashbrown::HashMap::values`, collected into a `Vec`: every chain of the table, in the
/// order the map is walked (which the contract leaves open).
#[verifier::external_body]
fn table_values(t: &ChainTable) -> (r: Vec<&PackBlockChain>)
    ensures
        lists_every_chain(r@, chain_table_contents(*t)),
        lists_only_chains(r@, chain_table_contents(*t)),
{
    t.map.values().collect()
}

/// `hashbrown::HashMap::shrink_to_fit`: frees spare capacity, keeping the contents.
#[verifier::external_body]
fn table_shrink_to_fit(t: &mut ChainTable)
    ensures
        chain_table_contents(*final(t)) == chain_table_contents(*old(t)),
{
    t.map.shrink_to_fit();
}

/// All chains of an archive, keyed by their offset.
pub struct ChainIndex {
    chains: ChainTable,
}

/// Every chain of the index is well formed.
pub open spec fn index_wf(m: Map<u64, PackBlockChain>) -> bool {
    forall|k: u64| m.contains_key(k) ==> #[trigger] chain_wf(m[k])
}

/// One step of path resolution: from chain `cur` into its directory `comp`.
pub open spec fn resolve_step(m: Map<u64, PackBlockChain>, cur: u64, comp: Seq<u8>) -> Result<u64, ChainLookupError> {
    if comp.len() == 0 {
        Err(ChainLookupError::InvalidPath)
    } else if !m.contains_key(cur) {
        Err(ChainLookupError::InvalidChainOffset)
    } else {
        match lookup_dir(chain_entries(m[cur]), comp) {
            Ok(c) => Ok(c.0),
            Err(e) => Err(e),
        }
    }
}

/// Resolves the components one after the other, stopping at the first failure.
pub open spec fn resolve_components(m: Map<u64, PackBlockChain>, cur: u64, comps: Seq<Seq<u8>>) -> Result<u64, ChainLookupError>
    decreases comps.len(),
{
    if comps.len() == 0 {
        Ok(cur)
    } else {
        match resolve_step(m, cur, comps[0]) {
            Ok(n) => resolve_components(m, n, comps.drop_first()),
            Err(e) => Err(e),
        }
    }
}

/// The chain that the directory path `path` leads to from chain `cur`.
pub open spec fn resolve_path(m: Map<u64, PackBlockChain>, cur: u64, path: Seq<u8>) -> Result<u64, ChainLookupError> {
    resolve_components(m, cur, split_path(path))
}

/// The parent chain of the last component of `path`, and that component.
pub open spec fn resolve_parent(m: Map<u64, PackBlockChain>, cur: u64, path: Seq<u8>) -> Result<(u64, Seq<u8>), ChainLookupError> {
    let k = last_sep(path);
    if k >= 0 {
        let name = path.skip(k + 1);
        if name.len() == 0 {
            Err(ChainLookupError::InvalidPath)
        } else {
            match resolve_path(m, cur, path.take(k)) {
                Ok(p) => Ok((p, name)),
                Err(e) => Err(e),
            }
        }
    } else if path.len() == 0 {
        Err(ChainLookupError::InvalidPath)
    } else {
        Ok((cur, path))
    }
}

/// The chain and index of the entry that `path` names from chain `cur`.
pub open spec fn resolve_entry(m: Map<u64, PackBlockChain>, cur: u64, path: Seq<u8>) -> Result<(u64, int), ChainLookupError> {
    match resolve_parent(m, cur, path) {
        Err(e) => Err(e),
        Ok((p, name)) => if !m.contains_key(p) {
            Err(ChainLookupError::InvalidChainOffset)
        } else {
            let i = first_match(chain_entries(m[p]), name);
            if i < chain_entries(m[p]).len() {
                Ok((p, i))
            } else {
                Err(ChainLookupError::NotFound)
            }
        },
    }
}

/// How far the directory path leads: the chain reached and how many components led there,
/// stopping at the first component that does not exist.
pub open spec fn walk_components(m: Map<u64, PackBlockChain>, cur: u64, comps: Seq<Seq<u8>>) -> Result<(u64, int), ChainLookupError>
    decreases comps.len(),
{
    if comps.len() == 0 {
        Ok((cur, 0))
    } else if comps[0].len() == 0 {
        Err(ChainLookupError::InvalidPath)
    } else if !m.contains_key(cur) {
        Err(ChainLookupError::InvalidChainOffset)
    } else {
        match lookup_dir(chain_entries(m[cur]), comps[0]) {
            Ok(c) => match walk_components(m, c.0, comps.drop_first()) {
                Ok((e, n)) => Ok((e, n + 1)),
                Err(e) => Err(e),
            },
            Err(ChainLookupError::NotFound) => Ok((cur, 0)),
            Err(e) => Err(e),
        }
    }
}

/// A path has at most one component more than it has bytes.
pub proof fn lemma_split_path_len(s: Seq<u8>)
    ensures
        1 <= split_path(s).len() <= s.len() + 1,
    decreases s.len(),
{
    lemma_first_sep(s);
    let k = first_sep(s);
    if k < s.len() {
        lemma_split_path_len(s.skip(k + 1));
    }
}

/// A walk that consumed fewer components than there are ends in an indexed chain.
pub proof fn lemma_walk_in_index(m: Map<u64, PackBlockChain>, cur: u64, comps: Seq<Seq<u8>>)
    ensures
        walk_components(m, cur, comps) matches Ok((c, n)) ==> (n < comps.len() ==> m.contains_key(c)),
    decreases comps.len(),
{
    if comps.len() > 0 && comps[0].len() > 0 && m.contains_key(cur) {
        match lookup_dir(chain_entries(m[cur]), comps[0]) {
            Ok(c) => lemma_walk_in_index(m, c.0, comps.drop_first()),
            _ => {},
        }
    }
}

/// A walk that stopped after `n` components resolved those `n` to the chain it reached, where
/// the next component is not a directory.
pub proof fn lemma_walk_resolves(m: Map<u64, PackBlockChain>, cur: u64, comps: Seq<Seq<u8>>)
    ensures
        walk_components(m, cur, comps) matches Ok((c, n)) ==> {
            &&& resolve_components(m, cur, comps.take(n)) == Ok::<u64, ChainLookupError>(c)
            &&& n < comps.len() ==> m.contains_key(c) && comps[n].len() > 0
                && lookup_dir(chain_entries(m[c]), comps[n]) == Err::<ChainOffset, ChainLookupError>(ChainLookupError::NotFound)
        },
    decreases comps.len(),
{
    lemma_walk_bound(m, cur, comps);
    if comps.len() > 0 && comps[0].len() > 0 && m.contains_key(cur) {
        match lookup_dir(chain_entries(m[cur]), comps[0]) {
            Ok(c) => {
                lemma_walk_resolves(m, c.0, comps.drop_first());
                match walk_components(m, c.0, comps.drop_first()) {
                    Ok((e, n)) => {
                        lemma_walk_bound(m, c.0, comps.drop_first());
                        assert(comps.take(n + 1).drop_first() =~= comps.drop_first().take(n));
                        assert(comps.take(n + 1)[0] == comps[0]);
                        if n < comps.drop_first().len() {
                            assert(comps[n + 1] == comps.drop_first()[n]);
                        }
                    },
                    Err(_) => {},
                }
            },
            _ => {
                assert(comps.take(0).len() == 0);
            },
        }
    } else if comps.len() == 0 {
        assert(comps.take(0).len() == 0);
    }
}

pub proof fn lemma_walk_bound(m: Map<u64, PackBlockChain>, cur: u64, comps: Seq<Seq<u8>>)
    ensures
        walk_components(m, cur, comps) matches Ok((c, n)) ==> 0 <= n <= comps.len(),
    decreases comps.len(),
{
    if comps.len() > 0 {
        match lookup_dir(chain_entries(m[cur]), comps[0]) {
            Ok(c) => lemma_walk_bound(m, c.0, comps.drop_first()),
            _ => {},
        }
    }
}

impl ChainIndex {
    /// The chains of the index by offset.
    pub closed spec fn chains(&self) -> Map<u64, PackBlockChain> {
        chain_table_contents(self.chains)
    }

    /// An empty index.
    pub fn new() -> (r: ChainIndex)
        ensures
            r.chains() == Map::<u64, PackBlockChain>::empty(),
    {
        ChainIndex { chains: table_new() }
    }

    pub fn get(&self, chain: ChainOffset) -> (r: Option<&PackBlockChain>)
        ensures
            r == (if self.chains().contains_key(chain.0) { Some(&self.chains()[chain.0]) } else { None }),
    {
        table_get(&self.chains, chain.0)
    }

    pub fn get_mut(&mut self, chain: ChainOffset) -> (r: Option<&mut PackBlockChain>)
        ensures
            old(self).chains().contains_key(chain.0) ==> (r matches Some(c) && *c == old(self).chains()[chain.0]
                && final(self).chains() == old(self).chains().insert(chain.0, *final(c))),
            !old(self).chains().contains_key(chain.0) ==> r is None && final(self).chains() == old(self).chains(),
    {
        table_get_mut(&mut self.chains, chain.0)
    }

    /// Entry `entry` of chain `chain`, if both exist.
    pub fn get_entry(&self, chain: ChainOffset, entry: usize) -> (r: Option<&PackEntry>)
        requires
            index_wf(self.chains()),
        ensures
            r == (if self.chains().contains_key(chain.0) && entry < chain_entries(self.chains()[chain.0]).len() {
                Some(&chain_entries(self.chains()[chain.0])[entry as int])
            } else {
                None
            }),
    {
        match table_get(&self.chains, chain.0) {
            Some(c) => c.get(entry),
            None => None,
        }
    }

    /// Entry `entry` of chain `chain` for changing, if both exist.
    pub fn get_entry_mut(&mut self, chain: ChainOffset, entry: usize) -> (r: Option<&mut PackEntry>)
        requires
            index_wf(old(self).chains()),
        ensures
            old(self).chains().contains_key(chain.0) && entry < chain_entries(old(self).chains()[chain.0]).len() ==> r is Some,
            r matches Some(e) ==> old(self).chains().contains_key(chain.0)
                && *e == chain_entries(old(self).chains()[chain.0])[entry as int]
                && final(self).chains().dom() == old(self).chains().dom()
                && index_wf(final(self).chains())
                && chain_entries(final(self).chains()[chain.0]) == chain_entries(old(self).chains()[chain.0]).update(entry as int, *final(e))
                && crate::format::block_chain::chain_block_offsets(final(self).chains()[chain.0])
                    == crate::format::block_chain::chain_block_offsets(old(self).chains()[chain.0])
                && forall|k: u64| k != chain.0 && #[trigger] old(self).chains().contains_key(k) ==> final(self).chains()[k] == old(self).chains()[k],
            r is None ==> final(self).chains() == old(self).chains(),
    {
        let ghost m = self.chains();
        match table_get_mut(&mut self.chains, chain.0) {
            Some(c) => {
                proof { assert(chain_wf(*c)); }
                c.get_mut(entry)
            },
            None => None,
        }
    }

    /// Stores `block` as the chain at offset `chain`.
    pub fn insert(&mut self, chain: ChainOffset, block: PackBlockChain)
        ensures
            final(self).chains() == old(self).chains().insert(chain.0, block),
    {
        table_insert(&mut self.chains, chain.0, block);
    }

    /// The chains of the index, in no particular order.
    pub fn chain_list(&self) -> (r: Vec<&PackBlockChain>)
        ensures
            lists_every_chain(r@, self.chains()),
            lists_only_chains(r@, self.chains()),
    {
        table_values(&self.chains)
    }

    /// Frees spare capacity of the map.
    pub fn shrink_to_fit(&mut self)
        ensures
            final(self).chains() == old(self).chains(),
    {
        table_shrink_to_fit(&mut self.chains);
    }

    /// Whether a chain is stored at offset `chain`.
    pub fn contains(&self, chain: ChainOffset) -> (r: bool)
        ensures
            r == self.chains().contains_key(chain.0),
    {
        table_contains_key(&self.chains, chain.0)
    }

    /// Resolves a directory path from `current_chain`, component by component, to the offset
    /// of the chain it leads to.
    pub fn resolve_path_to_block_chain_index_at(&self, current_chain: ChainOffset, path: &str) -> (r: Result<ChainOffset, ChainLookupError>)
        requires
            index_wf(self.chains()),
        ensures
            r == (match resolve_path(self.chains(), current_chain.0, path.spec_bytes()) {
                Ok(c) => Ok(ChainOffset(c)),
                Err(e) => Err(e),
            }),
    {
        let ghost m = self.chains();
        let mut cur: u64 = current_chain.0;
        let mut rest: &str = path;
        loop
            invariant
                m == self.chains(),
                index_wf(m),
                resolve_path(m, current_chain.0, path.spec_bytes()) == resolve_components(m, cur, split_path(rest.spec_bytes())),
            decreases rest.spec_bytes().len(),
        {
            let b = rest.as_bytes();
            let k = find_first_sep(b);
            proof { lemma_first_sep(b@); }
            let (comp, tail) = split_str_at(rest, k);
            proof {
                if k < b@.len() {
                    assert(split_path(b@) == seq![b@.take(k as int)] + split_path(b@.skip(k + 1)));
                } else {
                    assert(split_path(b@) == seq![b@]);
                    assert(b@.take(k as int) =~= b@);
                }
                assert(split_path(b@)[0] == comp.spec_bytes());
                assert(split_path(b@).drop_first() =~= (if k < b@.len() { split_path(b@.skip(k + 1)) } else { Seq::empty() }));
            }
            if comp.as_bytes().len() == 0 {
                return Err(ChainLookupError::InvalidPath);
            }
            let chain = match table_get(&self.chains, cur) {
                Some(c) => c,
                None => {
                    return Err(ChainLookupError::InvalidChainOffset);
                },
            };
            proof { assert(chain_wf(*chain)); }
            match chain.find_block_chain_index_of(comp) {
                Ok(c) => {
                    cur = c.0;
                },
                Err(e) => {
                    return Err(e);
                },
            }
            if k == b.len() {
                proof {
                    assert(split_path(b@).drop_first() =~= Seq::<Seq<u8>>::empty());
                    assert(resolve_components(m, cur as u64, Seq::<Seq<u8>>::empty()) == Ok::<u64, ChainLookupError>(cur as u64));
                }
                return Ok(ChainOffset(cur));
            }
            proof {
                assert(tail.spec_bytes().len() > 0);
                assert(tail.spec_bytes()[0] == b@[k as int]);
            }
            rest = skip_ascii(tail);
            proof {
                assert(rest.spec_bytes() =~= b@.skip(k + 1));
            }
        }
    }

    /// Splits `path` at its last separator: resolves the part before it from `current_chain`
    /// and returns that chain with the last component. A path without separators names an
    /// entry of `current_chain`. An empty path, or one ending in a separator, is invalid.
    pub fn resolve_path_to_parent<'path>(&self, current_chain: ChainOffset, path: &'path str) -> (r: Result<(ChainOffset, &'path str), ChainLookupError>)
        requires
            index_wf(self.chains()),
        ensures
            r is Ok <==> resolve_parent(self.chains(), current_chain.0, path.spec_bytes()) is Ok,
            r matches Err(e) ==> resolve_parent(self.chains(), current_chain.0, path.spec_bytes()) == Err::<(u64, Seq<u8>), ChainLookupError>(e),
            r matches Ok((c, name)) ==> resolve_parent(self.chains(), current_chain.0, path.spec_bytes())
                == Ok::<(u64, Seq<u8>), ChainLookupError>((c.0, name.spec_bytes())),
    {
        let b = path.as_bytes();
        match find_last_sep(b) {
            Some(k) => {
                proof { lemma_last_sep(b@); }
                let (rest, tail) = split_str_at(path, k);
                proof {
                    assert(tail.spec_bytes().len() > 0);
                    assert(tail.spec_bytes()[0] == b@[k as int]);
                }
                let name = skip_ascii(tail);
                proof {
                    assert(name.spec_bytes() =~= b@.skip(k + 1));
                }
                if name.as_bytes().len() == 0 {
                    return Err(ChainLookupError::InvalidPath);
                }
                match self.resolve_path_to_block_chain_index_at(current_chain, rest) {
                    Ok(parent) => Ok((parent, name)),
                    Err(e) => Err(e),
                }
            },
            None => {
                if path.as_bytes().len() == 0 {
                    return Err(ChainLookupError::InvalidPath);
                }
                Ok((current_chain, path))
            },
        }
    }

    /// The parent chain, index and entry that `path` names from `current_chain`. The first
    /// entry of the parent whose name matches (ignoring ASCII case) is the one.
    pub fn resolve_path_to_entry_and_parent(&self, current_chain: ChainOffset, path: &str) -> (r: Result<(ChainOffset, usize, &PackEntry), ChainLookupError>)
        requires
            index_wf(self.chains()),
        ensures
            r is Ok <==> resolve_entry(self.chains(), current_chain.0, path.spec_bytes()) is Ok,
            r matches Err(e) ==> resolve_entry(self.chains(), current_chain.0, path.spec_bytes()) == Err::<(u64, int), ChainLookupError>(e),
            r matches Ok((c, i, e)) ==> resolve_entry(self.chains(), current_chain.0, path.spec_bytes())
                == Ok::<(u64, int), ChainLookupError>((c.0, i as int))
                && *e == chain_entries(self.chains()[c.0])[i as int],
    {
        let (parent, name) = match self.resolve_path_to_parent(current_chain, path) {
            Ok(x) => x,
            Err(e) => {
                return Err(e);
            },
        };
        let chain = match table_get(&self.chains, parent.0) {
            Some(c) => c,
            None => {
                return Err(ChainLookupError::InvalidChainOffset);
            },
        };
        proof { assert(chain_wf(*chain)); }
        match find_entry(chain, name) {
            Some(i) => {
                let e = chain.get(i).unwrap();
                Ok((parent, i, e))
            },
            None => Err(ChainLookupError::NotFound),
        }
    }

    /// Like [`Self::resolve_path_to_entry_and_parent`], handing out the entry for changing.
    pub fn resolve_path_to_entry_and_parent_mut(&mut self, current_chain: ChainOffset, path: &str) -> (r: Result<(ChainOffset, usize, &mut PackEntry), ChainLookupError>)
        requires
            index_wf(old(self).chains()),
        ensures
            r is Ok <==> resolve_entry(old(self).chains(), current_chain.0, path.spec_bytes()) is Ok,
            r matches Err(e) ==> resolve_entry(old(self).chains(), current_chain.0, path.spec_bytes()) == Err::<(u64, int), ChainLookupError>(e)
                && final(self).chains() == old(self).chains(),
            r matches Ok((c, i, e)) ==> resolve_entry(old(self).chains(), current_chain.0, path.spec_bytes())
                == Ok::<(u64, int), ChainLookupError>((c.0, i as int))
                && *e == chain_entries(old(self).chains()[c.0])[i as int]
                && final(self).chains().dom() == old(self).chains().dom()
                && index_wf(final(self).chains())
                && chain_entries(final(self).chains()[c.0]) == chain_entries(old(self).chains()[c.0]).update(i as int, *final(e))
                && crate::format::block_chain::chain_block_offsets(final(self).chains()[c.0])
                    == crate::format::block_chain::chain_block_offsets(old(self).chains()[c.0])
                && forall|k: u64| k != c.0 && #[trigger] old(self).chains().contains_key(k) ==> final(self).chains()[k] == old(self).chains()[k],
    {
        let (parent, name) = match self.resolve_path_to_parent(current_chain, path) {
            Ok(x) => x,
            Err(e) => {
                return Err(e);
            },
        };
        let idx = match table_get(&self.chains, parent.0) {
            Some(chain) => {
                proof { assert(chain_wf(*chain)); }
                find_entry(chain, name)
            },
            None => {
                return Err(ChainLookupError::InvalidChainOffset);
            },
        };
        match idx {
            Some(i) => {
                let e = self.get_entry_mut(parent, i).unwrap();
                Ok((parent, i, e))
            },
            None => Err(ChainLookupError::NotFound),
        }
    }

    /// Follows the directory path from `chain` as far as it exists. `Ok(None)` when all of it
    /// exists; otherwise the last chain reached and the components not yet found. An empty
    /// component before that point is an invalid path.
    pub fn validate_dir_path_until<'p>(&self, chain: ChainOffset, path: &'p str) -> (r: Result<Option<(ChainOffset, Vec<&'p str>)>, ChainLookupError>)
        requires
            index_wf(self.chains()),
        ensures
            r is Ok <==> walk_components(self.chains(), chain.0, split_path(path.spec_bytes())) is Ok,
            r matches Err(e) ==> walk_components(self.chains(), chain.0, split_path(path.spec_bytes())) == Err::<(u64, int), ChainLookupError>(e),
            r matches Ok(o) ==> ({
                let comps = split_path(path.spec_bytes());
                let (c, n) = walk_components(self.chains(), chain.0, comps)->Ok_0;
                &&& 0 <= n <= comps.len()
                &&& (o is None <==> n == comps.len())
                &&& (o matches Some((c2, rest)) ==> c2.0 == c && rest@.len() == comps.len() - n
                    && forall|j: int| 0 <= j < rest@.len() ==> #[trigger] rest@[j].spec_bytes() == comps[n + j])
            }),
    {
        let ghost m = self.chains();
        let ghost comps0 = split_path(path.spec_bytes());
        let ghost mut consumed: int = 0;
        proof { lemma_walk_bound(m, chain.0, comps0); }
        let mut cur: u64 = chain.0;
        let mut rest: &str = path;
        loop
            invariant
                m == self.chains(),
                index_wf(m),
                0 <= consumed <= comps0.len(),
                comps0 == split_path(path.spec_bytes()),
                comps0.skip(consumed) == split_path(rest.spec_bytes()),
                walk_components(m, chain.0, comps0) == (match walk_components(m, cur, split_path(rest.spec_bytes())) {
                    Ok((e, n)) => Ok((e, n + consumed)),
                    Err(e) => Err(e),
                }),
            decreases rest.spec_bytes().len(),
        {
            let b = rest.as_bytes();
            let k = find_first_sep(b);
            proof { lemma_first_sep(b@); }
            let (comp, tail) = split_str_at(rest, k);
            proof {
                if k < b@.len() {
                    assert(split_path(b@) == seq![b@.take(k as int)] + split_path(b@.skip(k + 1)));
                } else {
                    assert(split_path(b@) == seq![b@]);
                    assert(b@.take(k as int) =~= b@);
                }
                assert(split_path(b@)[0] == comp.spec_bytes());
            }
            if comp.as_bytes().len() == 0 {
                return Err(ChainLookupError::InvalidPath);
            }
            let c = match table_get(&self.chains, cur) {
                Some(c) => c,
                None => {
                    return Err(ChainLookupError::InvalidChainOffset);
                },
            };
            proof { assert(chain_wf(*c)); }
            match c.find_block_chain_index_of(comp) {
                Ok(next) => {
                    if k == b.len() {
                        proof {
                            assert(split_path(b@).drop_first() =~= Seq::<Seq<u8>>::empty());
                            assert(walk_components(m, next.0, Seq::<Seq<u8>>::empty()) == Ok::<(u64, int), ChainLookupError>((next.0, 0)));
                            assert(comps0.skip(consumed).len() == 1);
                        }
                        return Ok(None);
                    }
                    proof {
                        assert(split_path(b@).drop_first() =~= split_path(b@.skip(k + 1)));
                        assert(comps0.skip(consumed + 1) =~= comps0.skip(consumed).drop_first());
                        consumed = consumed + 1;
                    }
                    cur = next.0;
                    proof {
                        assert(tail.spec_bytes()[0] == b@[k as int]);
                    }
                    rest = skip_ascii(tail);
                    proof {
                        assert(rest.spec_bytes() =~= b@.skip(k + 1));
                    }
                },
                Err(ChainLookupError::NotFound) => {
                    let remaining = split_components(rest);
                    return Ok(Some((ChainOffset(cur), remaining)));
                },
                Err(e) => {
                    return Err(e);
                },
            }
        }
    }
}

/// The index of the first entry of `chain` whose name matches `name`, if any.
fn find_entry(chain: &PackBlockChain, name: &str) -> (r: Option<usize>)
    requires
        chain_wf(*chain),
    ensures
        r is None <==> first_match(chain_entries(*chain), name.spec_bytes()) == chain_entries(*chain).len(),
        r matches Some(i) ==> i == first_match(chain_entries(*chain), name.spec_bytes()) && i < chain_entries(*chain).len(),
{
    let n = chain.num_entries();
    let ghost s = chain_entries(*chain);
    let mut i: usize = 0;
    while i < n
        invariant
            chain_wf(*chain),
            s == chain_entries(*chain),
            n == s.len(),
            i <= n,
            forall|j: int| 0 <= j < i ==> !#[trigger] entry_name_matches(s[j], name.spec_bytes()),
        decreases n - i,
    {
        let e = chain.get(i).unwrap();
        if e.name_eq_ignore_ascii_case(name) {
            proof { crate::format::block_chain::lemma_first_match_at(s, name.spec_bytes(), i as int); }
            return Some(i);
        }
        i = i + 1;
    }
    proof { crate::format::block_chain::lemma_first_match_at(s, name.spec_bytes(), n as int); }
    None
}

/// The components of `path`, as `str::split` on both separators gives them.
pub fn split_components<'p>(path: &'p str) -> (r: Vec<&'p str>)
    ensures
        r@.len() == split_path(path.spec_bytes()).len(),
        forall|j: int| 0 <= j < r@.len() ==> #[trigger] r@[j].spec_bytes() == split_path(path.spec_bytes())[j],
{
    let mut r: Vec<&'p str> = Vec::new();
    let mut rest: &'p str = path;
    let ghost all = split_path(path.spec_bytes());
    loop
        invariant
            all == split_path(path.spec_bytes()),
            all == r@.map_values(|s: &str| s.spec_bytes()) + split_path(rest.spec_bytes()),
        decreases rest.spec_bytes().len(),
    {
        let b = rest.as_bytes();
        let k = find_first_sep(b);
        proof { lemma_first_sep(b@); }
        let (comp, tail) = split_str_at(rest, k);
        let ghost r_before = r@;
        r.push(comp);
        if k == b.len() {
            proof {
                assert(split_path(b@) == seq![b@]);
                assert(b@.take(k as int) =~= b@);
                assert(r@.map_values(|s: &str| s.spec_bytes()) =~= r_before.map_values(|s: &str| s.spec_bytes()) + seq![b@]);
                assert(all =~= r@.map_values(|s: &str| s.spec_bytes()));
                assert forall|j: int| 0 <= j < r@.len() implies #[trigger] r@[j].spec_bytes() == all[j] by {
                    assert(r@.map_values(|s: &str| s.spec_bytes())[j] == r@[j].spec_bytes());
                }
            }
            return r;
        }
        proof {
            assert(split_path(b@) == seq![b@.take(k as int)] + split_path(b@.skip(k + 1)));
            assert(tail.spec_bytes()[0] == b@[k as int]);
        }
        rest = skip_ascii(tail);
        proof {
            assert(rest.spec_bytes() =~= b@.skip(k + 1));
            assert(r@.map_values(|s: &str| s.spec_bytes()) =~= r_before.map_values(|s: &str| s.spec_bytes()) + seq![b@.take(k as int)]);
            assert(all =~= r@.map_values(|s: &str| s.spec_bytes()) + split_path(rest.spec_bytes()));
        }
    }
}


/// The chains to visit that the entries of a block point at, in order: directories other than
/// the block's own chain `c` that are not indexed yet.
pub open spec fn new_work(entries: Seq<PackEntry>, c: u64, indexed: Set<u64>) -> Seq<(ChainOffset, BlockOffset)>
    decreases entries.len(),
{
    if entries.len() == 0 {
        Seq::empty()
    } else {
        let rest = new_work(entries.drop_last(), c, indexed);
        match entry_children(entries.last()) {
            Some(ch) => if ch.0 != c && !indexed.contains(ch.0) {
                rest.push((ch, BlockOffset(ch.0)))
            } else {
                rest
            },
            None => rest,
        }
    }
}

/// Reads the index breadth-first without doing any reading itself: it asks for the block it
/// needs next and is handed its bytes.
pub struct ChainIndexParser {
    chain_index: ChainIndex,
    offsets_to_process: Vec<(ChainOffset, BlockOffset)>,
}

impl ChainIndexParser {
    /// The chains indexed so far.
    pub closed spec fn index(&self) -> Map<u64, PackBlockChain> {
        self.chain_index.chains()
    }

    /// The blocks still to read, the next one last, each with the chain it belongs to.
    pub closed spec fn pending(&self) -> Seq<(ChainOffset, BlockOffset)> {
        self.offsets_to_process@
    }

    /// Handing the parser the next block cannot break: the block either starts a new chain or
    /// is the one the chain's last entry links to (a block of an indexed chain that its last
    /// entry does not link to, as a directory named twice in a damaged archive gives, would make
    /// appending it fail), and the chain has room for it.
    pub open spec fn progress_ok(&self) -> bool {
        self.pending().len() > 0 ==> {
            let (c, b) = self.pending().last();
            self.index().contains_key(c.0) ==> {
                &&& chain_entries(self.index()[c.0]).last().next_block == Some(b)
                &&& self.index()[c.0].blocks@.len() * 20 + 20 <= usize::MAX
            }
        }
    }

    pub fn new(chain_index: ChainIndex, offsets_to_process: Vec<(ChainOffset, BlockOffset)>) -> (r: ChainIndexParser)
        ensures
            r.index() == chain_index.chains(),
            r.pending() == offsets_to_process@,
    {
        ChainIndexParser { chain_index, offsets_to_process }
    }

    /// Gives up, returning the blocks not read yet.
    pub fn abandon(self) -> (r: Vec<(ChainOffset, BlockOffset)>)
        ensures
            r@ == self.pending(),
    {
        self.offsets_to_process
    }

    /// The index built so far.
    pub fn into_index(self) -> (r: ChainIndex)
        ensures
            r.chains() == self.index(),
    {
        self.chain_index
    }

    /// The offset of the block to read next, if any.
    pub fn wants_read_at(&self) -> (r: Option<BlockOffset>)
        ensures
            r == (if self.pending().len() > 0 { Some(self.pending().last().1) } else { None }),
    {
        let n = self.offsets_to_process.len();
        if n == 0 {
            None
        } else {
            Some(self.offsets_to_process[n - 1].1)
        }
    }

    /// Whether [`Self::progress`] may be called.
    pub fn can_progress(&self) -> (r: bool)
        requires
            index_wf(self.index()),
        ensures
            r == self.progress_ok(),
    {
        let n = self.offsets_to_process.len();
        if n == 0 {
            return true;
        }
        let (c, b) = self.offsets_to_process[n - 1];
        match self.chain_index.get(c) {
            Some(chain) => {
                proof { assert(chain_wf(*chain)); }
                if chain.blocks.len() > (usize::MAX - 20) / 20 {
                    return false;
                }
                let last = chain.num_entries() - 1;
                let e = chain.get(last).unwrap();
                match e.next_block {
                    Some(nb) => nb.0 == b.0,
                    None => false,
                }
            },
            None => true,
        }
    }

    /// Takes the bytes of the block asked for: parses it, asks for the block its last entry
    /// links to, then for the chains of the directories it holds that are not indexed yet, and
    /// adds the block to its chain. Returns how many blocks are still to read. A block that does
    /// not parse is dropped, and the error returned.
    pub fn progress(&mut self, buffer: &[u8; 2560]) -> (r: Result<usize, InvalidPackEntryType>)
        requires
            index_wf(old(self).index()),
            old(self).progress_ok(),
        ensures
            index_wf(final(self).index()),
            old(self).pending().len() == 0 ==> r == Ok::<usize, InvalidPackEntryType>(0) && final(self).index() == old(self).index()
                && final(self).pending() == old(self).pending(),
            old(self).pending().len() > 0 && !block_parse_ok(buffer@) ==> r == Err::<usize, InvalidPackEntryType>(
                InvalidPackEntryType(entry_chunk(buffer@, first_bad_entry(buffer@))[0]),
            ) && final(self).index() == old(self).index() && final(self).pending() == old(self).pending().drop_last(),
            old(self).pending().len() > 0 && block_parse_ok(buffer@) ==> r is Ok && exists|blk: PackBlock| {
                let (c, b) = old(self).pending().last();
                &&& #[trigger] block_parsed_from(blk, buffer@)
                &&& final(self).pending() == old(self).pending().drop_last() + (match blk.entries@[19].next_block {
                    Some(nb) => seq![(c, nb)],
                    None => Seq::empty(),
                }) + new_work(blk.entries@, c.0, old(self).index().dom())
                &&& final(self).index().dom() == old(self).index().dom().insert(c.0)
                &&& forall|k: u64| k != c.0 && #[trigger] old(self).index().contains_key(k) ==> final(self).index()[k] == old(self).index()[k]
                &&& chain_entries(final(self).index()[c.0]) == (if old(self).index().contains_key(c.0) {
                    chain_entries(old(self).index()[c.0]) + blk.entries@
                } else {
                    blk.entries@
                })
                &&& chain_block_offsets(final(self).index()[c.0]) == (if old(self).index().contains_key(c.0) {
                    chain_block_offsets(old(self).index()[c.0]).push(b)
                } else {
                    seq![b]
                })
                &&& r == Ok::<usize, InvalidPackEntryType>(final(self).pending().len() as usize)
            },
    {
        let (chain_index, block_offset) = match self.offsets_to_process.pop() {
            Some(x) => x,
            None => {
                return Ok(0);
            },
        };
        let block = match PackBlock::parse(buffer) {
            Ok(b) => b,
            Err(e) => {
                return Err(e);
            },
        };
        let ghost before = self.offsets_to_process@;
        if let Some(nb) = block.next_block() {
            self.offsets_to_process.push((chain_index, nb));
        }
        let ghost with_next = self.offsets_to_process@;
        let ghost dom = self.chain_index.chains().dom();
        let ghost m0 = self.chain_index.chains();
        let mut i: usize = 0;
        while i < 20
            invariant
                i <= 20,
                block_wf(block),
                self.chain_index.chains() == m0,
                dom == m0.dom(),
                index_wf(m0),
                m0.contains_key(chain_index.0) ==> {
                    &&& chain_entries(m0[chain_index.0]).last().next_block == Some(block_offset)
                    &&& m0[chain_index.0].blocks@.len() * 20 + 20 <= usize::MAX
                },
                self.offsets_to_process@ == with_next + new_work(block.entries@.take(i as int), chain_index.0, dom),
            decreases 20 - i,
        {
            let ghost pre = self.offsets_to_process@;
            proof {
                assert(block.entries@.take(i + 1).drop_last() =~= block.entries@.take(i as int));
                assert(block.entries@.take(i + 1).last() == block.entries@[i as int]);
            }
            match block.entries[i].children() {
                Some(ch) => {
                    if ch.0 != chain_index.0 && !self.chain_index.contains(ch) {
                        self.offsets_to_process.push((ch, BlockOffset(ch.0)));
                    }
                },
                None => {},
            }
            i = i + 1;
        }
        proof {
            assert(block.entries@.take(20) =~= block.entries@);
        }
        match self.chain_index.get_mut(chain_index) {
            Some(chain) => {
                proof { assert(chain_wf(*chain)); }
                chain.push(block_offset, block);
            },
            None => {
                let mut blocks: Vec<(BlockOffset, PackBlock)> = Vec::new();
                blocks.push((block_offset, block));
                let chain = PackBlockChain::from_blocks(blocks);
                proof {
                    assert(chain_entries(chain) =~= block.entries@);
                    assert(chain_block_offsets(chain) =~= seq![block_offset]);
                }
                self.chain_index.insert(chain_index, chain);
            },
        }
        Ok(self.offsets_to_process.len())
    }
}

} // verus!
