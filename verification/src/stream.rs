//! What a stream holds after writes: the stored images of blocks and entries, and how writing
//! an entry changes the block it lies in.

use vstd::prelude::*;
use crate::blowfish::ecb_encrypt;
use crate::format::block_chain::{
    PackBlock, PackBlockChain, block_wf, block_written, chain_block_offsets, chain_entries, chain_wf,
    block_parse_ok, block_parsed_from, entry_chunk, entry_rewritable, lemma_block_parse_of_write,
    lemma_block_written_chunk, lemma_chain_index, lemma_chain_index_bound,
};
use crate::format::entry::entries_match;
use crate::format::entry::entry_written;
use crate::format::chain_index::index_wf;
use crate::format::BlockOffset;
use crate::io::{WriteOp, block_image, empty_block_image, chain_offsets_fit, entry_image, entry_stream_offset, sealed};

verus! {

/// `s` after writing `data` at `off`: the stream grows to hold the data, and a gap before it
/// reads as zeros.
pub open spec fn apply_write(s: Seq<u8>, off: int, data: Seq<u8>) -> Seq<u8> {
    let n = if off + data.len() > s.len() { off + data.len() } else { s.len() as int };
    Seq::new(
        n as nat,
        |i: int| if off <= i < off + data.len() {
            data[i - off]
        } else if i < s.len() {
            s[i]
        } else {
            0u8
        },
    )
}

/// ECB encryption works on 8-byte blocks on their own: the stored form of a part that starts
/// and ends at block boundaries is that part of the stored form of the whole.
pub proof fn lemma_sealed_subrange(key: Option<Seq<u8>>, d: Seq<u8>, a: int, n: int)
    requires
        0 <= a,
        0 <= n,
        a % 8 == 0,
        n % 8 == 0,
        a + n <= d.len(),
    ensures
        sealed(key, d).subrange(a, a + n) == sealed(key, d.subrange(a, a + n)),
{
    match key {
        Some(k) => {
            let x = ecb_encrypt(k, d).subrange(a, a + n);
            let y = ecb_encrypt(k, d.subrange(a, a + n));
            assert forall|t: int| 0 <= t < n implies x[t] == y[t] by {
                let i = a + t;
                assert(i / 8 * 8 == a + t / 8 * 8 && i % 8 == t % 8) by (nonlinear_arith)
                    requires
                        a % 8 == 0,
                        i == a + t,
                        0 <= t,
                        0 <= a,
                ;
                assert(t / 8 * 8 + 8 <= n) by (nonlinear_arith)
                    requires
                        n % 8 == 0,
                        0 <= t < n,
                ;
                assert(0 <= t / 8 * 8) by (nonlinear_arith)
                    requires
                        0 <= t,
                ;
                assert(d.subrange(i / 8 * 8, i / 8 * 8 + 8) =~= d.subrange(a, a + n).subrange(
                    t / 8 * 8,
                    t / 8 * 8 + 8,
                ));
            }
            assert(x =~= y);
        },
        None => {},
    }
}

/// The stored form of a block is the stored forms of its entries, one after the other.
pub proof fn lemma_entry_in_block_image(key: Option<Seq<u8>>, b: PackBlock, j: int)
    requires
        block_wf(b),
        0 <= j < 20,
    ensures
        block_image(key, b).subrange(128 * j, 128 * j + 128) == entry_image(key, b.entries@[j]),
{
    let z = Seq::new(2560, |i: int| 0u8);
    let w = block_written(z, b);
    lemma_sealed_subrange(key, w, 128 * j, 128);
    lemma_block_written_chunk(z, b, j);
    assert(entry_chunk(z, j) =~= Seq::new(128, |i: int| 0u8));
}

/// `s` holds the stored form of block `b` at `off`.
pub open spec fn holds_block(key: Option<Seq<u8>>, s: Seq<u8>, off: int, b: PackBlock) -> bool {
    &&& 0 <= off
    &&& off + 2560 <= s.len()
    &&& s.subrange(off, off + 2560) == block_image(key, b)
}

/// The stored form of a block, byte by byte: byte `p` is byte `p % 128` of the stored form of
/// entry `p / 128`.
proof fn lemma_block_image_byte(key: Option<Seq<u8>>, b: PackBlock, p: int)
    requires
        block_wf(b),
        0 <= p < 2560,
    ensures
        0 <= p / 128 < 20,
        block_image(key, b)[p] == entry_image(key, b.entries@[p / 128])[p % 128],
{
    let q = p / 128;
    let r = p % 128;
    assert(p == 128 * q + r && 0 <= r < 128 && 0 <= q < 20) by (nonlinear_arith)
        requires
            q == p / 128,
            r == p % 128,
            0 <= p < 2560,
    ;
    lemma_entry_in_block_image(key, b, q);
    assert(block_image(key, b).subrange(128 * q, 128 * q + 128)[r] == block_image(key, b)[p]);
}

/// Writing the stored form of entry `j` of a block over that entry's place, in a stream that
/// holds the block as it was before the entry changed, leaves the stream holding the changed
/// block, and every other byte as it was.
pub proof fn lemma_entry_write_in_block(
    key: Option<Seq<u8>>,
    s: Seq<u8>,
    off: int,
    b: PackBlock,
    b2: PackBlock,
    j: int,
)
    requires
        block_wf(b),
        block_wf(b2),
        0 <= j < 20,
        b2.entries@ == b.entries@.update(j, b2.entries@[j]),
        holds_block(key, s, off, b),
    ensures
        apply_write(s, off + 128 * j, entry_image(key, b2.entries@[j])).len() == s.len(),
        holds_block(key, apply_write(s, off + 128 * j, entry_image(key, b2.entries@[j])), off, b2),
        forall|i: int|
            0 <= i < s.len() && !(off + 128 * j <= i < off + 128 * j + 128)
                ==> #[trigger] apply_write(s, off + 128 * j, entry_image(key, b2.entries@[j]))[i] == s[i],
{
    let img = entry_image(key, b2.entries@[j]);
    let s2 = apply_write(s, off + 128 * j, img);
    assert(img.len() == 128);
    assert forall|p: int| 0 <= p < 2560 implies #[trigger] s2.subrange(off, off + 2560)[p] == block_image(key, b2)[p] by {
        lemma_block_image_byte(key, b2, p);
        lemma_block_image_byte(key, b, p);
        let q = p / 128;
        assert(s2.subrange(off, off + 2560)[p] == s2[off + p]);
        if q == j {
            assert(p - 128 * j == p % 128) by (nonlinear_arith)
                requires
                    q == p / 128,
                    q == j,
                    0 <= p,
            ;
        } else {
            assert(!(off + 128 * j <= off + p < off + 128 * j + 128)) by (nonlinear_arith)
                requires
                    q == p / 128,
                    q != j,
                    0 <= p,
            ;
            assert(s.subrange(off, off + 2560)[p] == s[off + p]);
        }
    }
    assert(s2.subrange(off, off + 2560) =~= block_image(key, b2));
}

/// `s` holds every block of chain `c` where the chain says it lies.
pub open spec fn holds_chain(key: Option<Seq<u8>>, s: Seq<u8>, c: PackBlockChain) -> bool {
    forall|b: int| 0 <= b < c.blocks@.len() ==> #[trigger] holds_block(key, s, c.blocks@[b].0.0 as int, c.blocks@[b].1)
}

/// The regions of two blocks at offsets `x` and `y` do not overlap.
pub open spec fn apart(x: u64, y: u64) -> bool {
    x + 2560 <= y || y + 2560 <= x
}

/// No two blocks of chain `c` overlap in the stream.
pub open spec fn blocks_apart(c: PackBlockChain) -> bool {
    forall|b1: int, b2: int|
        0 <= b1 < c.blocks@.len() && 0 <= b2 < c.blocks@.len() && b1 != b2
            ==> apart(#[trigger] c.blocks@[b1].0.0, #[trigger] c.blocks@[b2].0.0)
}

/// A write of at most 128 bytes inside the region of one block leaves every block apart from it
/// as the stream held it.
proof fn lemma_write_keeps_block(key: Option<Seq<u8>>, s: Seq<u8>, off: int, data: Seq<u8>, x: u64, y: u64, b: PackBlock)
    requires
        apart(x, y),
        x <= off,
        off + data.len() <= x + 2560,
        off + data.len() <= s.len(),
        holds_block(key, s, y as int, b),
    ensures
        holds_block(key, apply_write(s, off, data), y as int, b),
{
    let s2 = apply_write(s, off, data);
    assert(s2.subrange(y as int, y + 2560) =~= s.subrange(y as int, y + 2560));
}

/// A write that does not reach into a block's region leaves the block as the stream held it.
pub proof fn lemma_write_clear_of_block(key: Option<Seq<u8>>, s: Seq<u8>, off: int, data: Seq<u8>, y: int, b: PackBlock)
    requires
        0 <= off,
        off + data.len() <= y || y + 2560 <= off,
        holds_block(key, s, y, b),
    ensures
        holds_block(key, apply_write(s, off, data), y, b),
{
    let s2 = apply_write(s, off, data);
    assert(s2.subrange(y, y + 2560) =~= s.subrange(y, y + 2560));
}

/// The entries of block `b` of a chain are entries `20 * b ..` of the chain.
pub proof fn lemma_block_entries(c: PackBlockChain, b: int, r: int)
    requires
        chain_wf(c),
        0 <= b < c.blocks@.len(),
        0 <= r < 20,
    ensures
        c.blocks@[b].1.entries@[r] == chain_entries(c)[20 * b + r],
        0 <= 20 * b + r < chain_entries(c).len(),
{
    let k = 20 * b + r;
    assert(k / 20 == b && k % 20 == r) by (nonlinear_arith)
        requires
            k == 20 * b + r,
            0 <= r < 20,
            0 <= b,
    ;
    assert(k < c.blocks@.len() * 20) by (nonlinear_arith)
        requires
            k == 20 * b + r,
            r < 20,
            b < c.blocks@.len(),
    ;
    lemma_chain_index(c, k);
}

/// Two blocks with the same entries have the same stored form.
pub proof fn lemma_same_entries_same_image(key: Option<Seq<u8>>, a: PackBlock, b: PackBlock)
    requires
        a.entries@ == b.entries@,
    ensures
        block_image(key, a) == block_image(key, b),
{
    let z = Seq::new(2560, |i: int| 0u8);
    assert(block_written(z, a) =~= block_written(z, b));
}

/// Writing the stored form of entry `i` of chain `f` where that entry lies, in a stream that
/// holds the chain `o` whose blocks do not overlap, where `f` has the blocks of `o` at the same
/// offsets (and maybe more after them) and the same entries but entry `i`: afterwards the
/// stream holds those blocks of `f`, and every byte outside the entry's 128 is as it was.
pub proof fn lemma_chain_entry_write_prefix(key: Option<Seq<u8>>, s: Seq<u8>, o: PackBlockChain, f: PackBlockChain, i: int)
    requires
        chain_wf(o),
        chain_wf(f),
        chain_offsets_fit(o),
        o.blocks@.len() <= f.blocks@.len(),
        forall|b: int| 0 <= b < o.blocks@.len() ==> #[trigger] f.blocks@[b].0 == o.blocks@[b].0,
        0 <= i < chain_entries(o).len(),
        forall|t: int| 0 <= t < chain_entries(o).len() && t != i ==> #[trigger] chain_entries(f)[t] == chain_entries(o)[t],
        holds_chain(key, s, o),
        blocks_apart(o),
    ensures
        ({
            let s2 = apply_write(s, entry_stream_offset(f, i) as int, entry_image(key, chain_entries(f)[i]));
            &&& s2.len() == s.len()
            &&& forall|b: int| 0 <= b < o.blocks@.len() ==> #[trigger] holds_block(key, s2, f.blocks@[b].0.0 as int, f.blocks@[b].1)
            &&& entry_stream_offset(f, i) == o.blocks@[i / 20].0.0 + 128 * (i % 20)
            &&& 0 <= i % 20 < 20
            &&& 0 <= i / 20 < o.blocks@.len()
            &&& forall|p: int| 0 <= p < s.len() && !(entry_stream_offset(f, i) <= p < entry_stream_offset(f, i) + 128)
                ==> #[trigger] s2[p] == s[p]
        }),
{
    let e = chain_entries(f)[i];
    let img = entry_image(key, e);
    lemma_chain_index_bound(o, i);
    let bs = i / 20;
    let j = i % 20;
    assert(i == 20 * bs + j) by (nonlinear_arith)
        requires
            bs == i / 20,
            j == i % 20,
            0 <= i,
    ;
    let off = o.blocks@[bs].0.0 as int;
    assert(f.blocks@[bs].0 == o.blocks@[bs].0);
    assert(entry_stream_offset(f, i) == off + 128 * j);
    let ob = o.blocks@[bs].1;
    let fb = f.blocks@[bs].1;
    assert(block_wf(ob));
    assert(block_wf(fb));
    assert(fb.entries@ =~= ob.entries@.update(j, fb.entries@[j])) by {
        assert forall|r: int| 0 <= r < 20 implies #[trigger] fb.entries@[r] == ob.entries@.update(j, fb.entries@[j])[r] by {
            lemma_block_entries(f, bs, r);
            lemma_block_entries(o, bs, r);
            if r != j {
                assert(20 * bs + r != i);
                assert(chain_entries(f)[20 * bs + r] == chain_entries(o)[20 * bs + r]);
            }
        }
    }
    lemma_block_entries(f, bs, j);
    assert(fb.entries@[j] == e);
    assert(holds_block(key, s, off, ob));
    lemma_entry_write_in_block(key, s, off, ob, fb, j);
    let s2 = apply_write(s, off + 128 * j, img);
    assert forall|b: int| 0 <= b < o.blocks@.len() implies #[trigger] holds_block(key, s2, f.blocks@[b].0.0 as int, f.blocks@[b].1) by {
        if b != bs {
            assert(apart(o.blocks@[bs].0.0, o.blocks@[b].0.0));
            assert(holds_block(key, s, o.blocks@[b].0.0 as int, o.blocks@[b].1));
            lemma_write_keeps_block(key, s, off + 128 * j, img, o.blocks@[bs].0.0, o.blocks@[b].0.0, o.blocks@[b].1);
            assert(block_wf(f.blocks@[b].1));
            assert(block_wf(o.blocks@[b].1));
            assert(f.blocks@[b].1.entries@ =~= o.blocks@[b].1.entries@) by {
                assert forall|r: int| 0 <= r < 20 implies #[trigger] f.blocks@[b].1.entries@[r] == o.blocks@[b].1.entries@[r] by {
                    lemma_block_entries(f, b, r);
                    lemma_block_entries(o, b, r);
                    assert(20 * b + r != i) by (nonlinear_arith)
                        requires
                            i == 20 * bs + j,
                            0 <= j < 20,
                            0 <= r < 20,
                            b != bs,
                    ;
                    assert(chain_entries(f)[20 * b + r] == chain_entries(o)[20 * b + r]);
                }
            }
            lemma_same_entries_same_image(key, f.blocks@[b].1, o.blocks@[b].1);
        }
    }
}

/// Writing the stored form of entry `i` of a chain where that entry lies, in a stream that
/// holds the chain as it was before the entry changed, leaves the stream holding the changed
/// chain, when the chain's blocks do not overlap.
pub proof fn lemma_chain_entry_write(key: Option<Seq<u8>>, s: Seq<u8>, o: PackBlockChain, f: PackBlockChain, i: int)
    requires
        chain_wf(o),
        chain_wf(f),
        chain_offsets_fit(o),
        chain_block_offsets(f) == chain_block_offsets(o),
        0 <= i < chain_entries(o).len(),
        chain_entries(f) == chain_entries(o).update(i, chain_entries(f)[i]),
        holds_chain(key, s, o),
        blocks_apart(o),
    ensures
        apply_write(s, entry_stream_offset(f, i) as int, entry_image(key, chain_entries(f)[i])).len() == s.len(),
        holds_chain(key, apply_write(s, entry_stream_offset(f, i) as int, entry_image(key, chain_entries(f)[i])), f),
{
    assert(chain_block_offsets(f).len() == f.blocks@.len());
    assert(chain_block_offsets(o).len() == o.blocks@.len());
    assert forall|b: int| 0 <= b < o.blocks@.len() implies #[trigger] f.blocks@[b].0 == o.blocks@[b].0 by {
        assert(chain_block_offsets(f)[b] == f.blocks@[b].0);
        assert(chain_block_offsets(o)[b] == o.blocks@[b].0);
    }
    assert forall|t: int| 0 <= t < chain_entries(o).len() && t != i implies #[trigger] chain_entries(f)[t] == chain_entries(o)[t] by {
        assert(chain_entries(f)[t] == chain_entries(o).update(i, chain_entries(f)[i])[t]);
    }
    lemma_chain_entry_write_prefix(key, s, o, f, i);
}

/// `s` after the writes `ops`, one after the other.
pub open spec fn apply_writes(s: Seq<u8>, ops: Seq<WriteOp>) -> Seq<u8>
    decreases ops.len(),
{
    if ops.len() == 0 {
        s
    } else {
        apply_writes(apply_write(s, ops[0].offset as int, ops[0].data@), ops.drop_first())
    }
}

/// Performing one more write after some writes.
pub proof fn lemma_apply_writes_push(s: Seq<u8>, ops: Seq<WriteOp>, w: WriteOp)
    ensures
        apply_writes(s, ops.push(w)) == apply_write(apply_writes(s, ops), w.offset as int, w.data@),
    decreases ops.len(),
{
    if ops.len() == 0 {
        reveal_with_fuel(apply_writes, 2);
        assert(ops.push(w).drop_first().len() == 0);
    } else {
        let s1 = apply_write(s, ops[0].offset as int, ops[0].data@);
        lemma_apply_writes_push(s1, ops.drop_first(), w);
        assert(ops.push(w).drop_first() =~= ops.drop_first().push(w));
    }
}

/// The writes `ops`, performed in order on any stream of `stream_len` bytes that holds the
/// index `m0` with no two blocks overlapping, leave a stream of `new_len` bytes that holds the
/// index `m1`, again with no two blocks overlapping.
pub open spec fn writes_keep_stream(
    key: Option<Seq<u8>>,
    m0: Map<u64, PackBlockChain>,
    m1: Map<u64, PackBlockChain>,
    stream_len: u64,
    ops: Seq<WriteOp>,
    new_len: u64,
) -> bool {
    forall|s: Seq<u8>|
        s.len() == stream_len && #[trigger] holds_index(key, s, m0) && index_blocks_apart(m0) ==> {
            &&& apply_writes(s, ops).len() == new_len
            &&& holds_index(key, apply_writes(s, ops), m1)
            &&& index_blocks_apart(m1)
        }
}

/// Only entry `i` of chain `c` changed from `m0` to `m1`.
pub open spec fn entry_changed(m0: Map<u64, PackBlockChain>, m1: Map<u64, PackBlockChain>, c: u64, i: int) -> bool {
    &&& m1.dom() == m0.dom()
    &&& forall|k: u64| k != c && #[trigger] m0.contains_key(k) ==> m1[k] == m0[k]
    &&& chain_entries(m1[c]) == chain_entries(m0[c]).update(i, chain_entries(m1[c])[i])
    &&& chain_block_offsets(m1[c]) == chain_block_offsets(m0[c])
}

/// `s` holds every chain of the index.
pub open spec fn holds_index(key: Option<Seq<u8>>, s: Seq<u8>, m: Map<u64, PackBlockChain>) -> bool {
    forall|k: u64| m.contains_key(k) ==> #[trigger] holds_chain(key, s, m[k])
}

/// No two blocks of the index overlap in the stream.
pub open spec fn index_blocks_apart(m: Map<u64, PackBlockChain>) -> bool {
    forall|k1: u64, k2: u64, b1: int, b2: int|
        m.contains_key(k1) && m.contains_key(k2) && 0 <= b1 < m[k1].blocks@.len() && 0 <= b2
            < m[k2].blocks@.len() && (k1 != k2 || b1 != b2) ==> apart(
            #[trigger] m[k1].blocks@[b1].0.0,
            #[trigger] m[k2].blocks@[b2].0.0,
        )
}

/// Writing the stored form of a changed entry of chain `c` where it lies, in a stream that
/// holds the index as it was, leaves the stream holding the changed index, when no two blocks
/// of the index overlap.
pub proof fn lemma_index_entry_write(
    key: Option<Seq<u8>>,
    s: Seq<u8>,
    m0: Map<u64, PackBlockChain>,
    m1: Map<u64, PackBlockChain>,
    c: u64,
    i: int,
)
    requires
        index_wf(m0),
        m0.contains_key(c),
        chain_offsets_fit(m0[c]),
        m1.dom() == m0.dom(),
        forall|k: u64| k != c && #[trigger] m0.contains_key(k) ==> m1[k] == m0[k],
        chain_wf(m1[c]),
        chain_block_offsets(m1[c]) == chain_block_offsets(m0[c]),
        0 <= i < chain_entries(m0[c]).len(),
        chain_entries(m1[c]) == chain_entries(m0[c]).update(i, chain_entries(m1[c])[i]),
        holds_index(key, s, m0),
        index_blocks_apart(m0),
    ensures
        holds_index(
            key,
            apply_write(s, entry_stream_offset(m1[c], i) as int, entry_image(key, chain_entries(m1[c])[i])),
            m1,
        ),
        index_blocks_apart(m1),
{
    let o = m0[c];
    let f = m1[c];
    let img = entry_image(key, chain_entries(f)[i]);
    let woff = entry_stream_offset(f, i) as int;
    let s2 = apply_write(s, woff, img);
    assert(chain_wf(o));
    assert(holds_chain(key, s, o));
    assert(blocks_apart(o));
    lemma_chain_entry_write(key, s, o, f, i);
    lemma_chain_index_bound(o, i);
    let bs = i / 20;
    let j = i % 20;
    assert(i == 20 * bs + j) by (nonlinear_arith)
        requires
            bs == i / 20,
            j == i % 20,
            0 <= i,
    ;
    assert(chain_block_offsets(f).len() == f.blocks@.len());
    assert(chain_block_offsets(o).len() == o.blocks@.len());
    assert forall|b: int| 0 <= b < o.blocks@.len() implies f.blocks@[b].0 == o.blocks@[b].0 by {
        assert(chain_block_offsets(f)[b] == f.blocks@[b].0);
        assert(chain_block_offsets(o)[b] == o.blocks@[b].0);
    }
    assert(woff == o.blocks@[bs].0.0 + 128 * j);
    assert forall|k: u64| m1.contains_key(k) implies #[trigger] holds_chain(key, s2, m1[k]) by {
        if k != c {
            assert(holds_chain(key, s, m0[k]));
            assert forall|b: int| 0 <= b < m1[k].blocks@.len() implies #[trigger] holds_block(key, s2, m1[k].blocks@[b].0.0 as int, m1[k].blocks@[b].1) by {
                assert(apart(m0[c].blocks@[bs].0.0, m0[k].blocks@[b].0.0));
                assert(holds_block(key, s, m0[k].blocks@[b].0.0 as int, m0[k].blocks@[b].1));
                lemma_write_keeps_block(key, s, woff, img, m0[c].blocks@[bs].0.0, m0[k].blocks@[b].0.0, m0[k].blocks@[b].1);
            }
        }
    }
    assert forall|k1: u64, k2: u64, b1: int, b2: int|
        m1.contains_key(k1) && m1.contains_key(k2) && 0 <= b1 < m1[k1].blocks@.len() && 0 <= b2
            < m1[k2].blocks@.len() && (k1 != k2 || b1 != b2) implies apart(
            #[trigger] m1[k1].blocks@[b1].0.0,
            #[trigger] m1[k2].blocks@[b2].0.0,
        ) by {
        assert(m1[k1].blocks@[b1].0 == m0[k1].blocks@[b1].0);
        assert(m1[k2].blocks@[b2].0 == m0[k2].blocks@[b2].0);
        assert(apart(m0[k1].blocks@[b1].0.0, m0[k2].blocks@[b2].0.0));
    }
}

/// The bytes of block `b` before sealing: its entries written over zeroed bytes.
pub open spec fn plain_block(b: PackBlock) -> Seq<u8> {
    block_written(Seq::new(2560, |i: int| 0u8), b)
}

/// A stream that holds a block gives it back: the stored bytes are the sealed form of the
/// block's bytes, and those bytes parse back to the block's entries, when each entry can be
/// read back from zeroed bytes.
pub proof fn lemma_held_block_reads_back(key: Option<Seq<u8>>, s: Seq<u8>, off: int, b: PackBlock)
    requires
        block_wf(b),
        holds_block(key, s, off, b),
        forall|k: int| 0 <= k < 20 ==> entry_rewritable(#[trigger] b.entries@[k], Seq::new(128, |i: int| 0u8)),
    ensures
        s.subrange(off, off + 2560) == sealed(key, plain_block(b)),
        block_parse_ok(plain_block(b)),
        forall|b2: PackBlock| #[trigger] block_parsed_from(b2, plain_block(b))
            ==> forall|k: int| 0 <= k < 20 ==> #[trigger] entries_match(b2.entries@[k], b.entries@[k]),
{
    let z = Seq::new(2560, |i: int| 0u8);
    assert forall|k: int| 0 <= k < 20 implies #[trigger] entry_rewritable(b.entries@[k], entry_chunk(z, k)) by {
        assert(entry_chunk(z, k) =~= Seq::new(128, |i: int| 0u8));
        assert(entry_rewritable(b.entries@[k], Seq::new(128, |i: int| 0u8)));
    }
    lemma_block_parse_of_write(b, z);
}

/// Every block of a held index ends within the stream.
pub proof fn lemma_held_blocks_within(key: Option<Seq<u8>>, t: Seq<u8>, m: Map<u64, PackBlockChain>)
    requires
        holds_index(key, t, m),
    ensures
        forall|k: u64, b: int| m.contains_key(k) && 0 <= b < m[k].blocks@.len()
            ==> #[trigger] m[k].blocks@[b].0.0 + 2560 <= t.len(),
{
    assert forall|k: u64, b: int| m.contains_key(k) && 0 <= b < m[k].blocks@.len()
        implies #[trigger] m[k].blocks@[b].0.0 + 2560 <= t.len() by {
        assert(holds_chain(key, t, m[k]));
        assert(holds_block(key, t, m[k].blocks@[b].0.0 as int, m[k].blocks@[b].1));
    }
}

/// A write at the end of the stream leaves every held chain held.
pub proof fn lemma_write_at_end_keeps_index(key: Option<Seq<u8>>, t: Seq<u8>, m: Map<u64, PackBlockChain>, data: Seq<u8>)
    requires
        holds_index(key, t, m),
    ensures
        holds_index(key, apply_write(t, t.len() as int, data), m),
{
    let end = t.len() as int;
    assert forall|k: u64| m.contains_key(k) implies #[trigger] holds_chain(key, apply_write(t, end, data), m[k]) by {
        assert(holds_chain(key, t, m[k]));
        assert forall|b: int| 0 <= b < m[k].blocks@.len() implies #[trigger] holds_block(key, apply_write(t, end, data), m[k].blocks@[b].0.0 as int, m[k].blocks@[b].1) by {
            assert(holds_block(key, t, m[k].blocks@[b].0.0 as int, m[k].blocks@[b].1));
            lemma_write_clear_of_block(key, t, end, data, m[k].blocks@[b].0.0 as int, m[k].blocks@[b].1);
        }
    }
}

/// Appending an empty block to chain `c` (which becomes `f`) and linking the chain's old last
/// entry to it: writing the empty block at the end of the stream, then the linked entry where it
/// lies, leaves the stream holding the changed index, 2560 bytes longer.
pub proof fn lemma_append_keeps_stream(
    key: Option<Seq<u8>>,
    t: Seq<u8>,
    m: Map<u64, PackBlockChain>,
    c: u64,
    f: PackBlockChain,
    w0: WriteOp,
    w1: WriteOp,
)
    requires
        index_wf(m),
        m.contains_key(c),
        chain_wf(f),
        chain_offsets_fit(m[c]),
        t.len() <= u64::MAX,
        chain_block_offsets(f) == chain_block_offsets(m[c]).push(BlockOffset(t.len() as u64)),
        chain_entries(f).len() == chain_entries(m[c]).len() + 20,
        forall|j: int| 0 <= j < chain_entries(m[c]).len() - 1 ==> #[trigger] chain_entries(f)[j] == chain_entries(m[c])[j],
        forall|j: int| chain_entries(m[c]).len() <= j < chain_entries(m[c]).len() + 20
            ==> (#[trigger] chain_entries(f)[j]).entry is None && chain_entries(f)[j].next_block is None,
        w0.offset == t.len(),
        w0.data@ == empty_block_image(key),
        w1.offset == entry_stream_offset(f, chain_entries(m[c]).len() - 1),
        w1.data@ == entry_image(key, chain_entries(f)[chain_entries(m[c]).len() - 1]),
        holds_index(key, t, m),
        index_blocks_apart(m),
    ensures
        ({
            let t2 = apply_write(apply_write(t, w0.offset as int, w0.data@), w1.offset as int, w1.data@);
            &&& t2.len() == t.len() + 2560
            &&& holds_index(key, t2, m.insert(c, f))
            &&& index_blocks_apart(m.insert(c, f))
        }),
{
    let o = m[c];
    let m1 = m.insert(c, f);
    let se = chain_entries(o);
    let n = o.blocks@.len() as int;
    let end = t.len() as int;
    assert(chain_wf(o));
    lemma_held_blocks_within(key, t, m);
    let t1 = apply_write(t, end, w0.data@);
    lemma_write_at_end_keeps_index(key, t, m, w0.data@);
    assert(t1.len() == end + 2560);
    assert(chain_block_offsets(f).len() == f.blocks@.len());
    assert(chain_block_offsets(o).len() == n);
    assert(f.blocks@.len() == n + 1);
    assert forall|b: int| 0 <= b < n implies #[trigger] f.blocks@[b].0 == o.blocks@[b].0 by {
        assert(chain_block_offsets(f)[b] == f.blocks@[b].0);
        assert(chain_block_offsets(o)[b] == o.blocks@[b].0);
    }
    assert(f.blocks@[n].0 == BlockOffset(end as u64)) by {
        assert(chain_block_offsets(f)[n] == f.blocks@[n].0);
    }
    let last = se.len() - 1;
    assert(se.len() == n * 20);
    assert(holds_chain(key, t1, o));
    assert(blocks_apart(o));
    lemma_chain_entry_write_prefix(key, t1, o, f, last);
    let t2 = apply_write(t1, w1.offset as int, w1.data@);
    let bl = last / 20;
    let eo = entry_stream_offset(f, last) as int;
    assert(eo + 128 <= end);
    let nb = f.blocks@[n].1;
    assert(block_wf(nb));
    assert forall|r: int| 0 <= r < 20 implies (#[trigger] nb.entries@[r]).entry is None && nb.entries@[r].next_block is None by {
        lemma_block_entries(f, n, r);
        assert(se.len() <= 20 * n + r < se.len() + 20);
    }
    crate::io::lemma_empty_block_image(key, nb);
    assert(t1.subrange(end, end + 2560) =~= w0.data@);
    assert(holds_block(key, t1, end, nb));
    assert(t2.subrange(end, end + 2560) =~= t1.subrange(end, end + 2560)) by {
        assert forall|p: int| 0 <= p < 2560 implies #[trigger] t2.subrange(end, end + 2560)[p] == t1.subrange(end, end + 2560)[p] by {
            assert(t2[end + p] == t1[end + p]);
        }
    }
    assert(holds_chain(key, t2, f)) by {
        assert forall|b: int| 0 <= b < f.blocks@.len() implies #[trigger] holds_block(key, t2, f.blocks@[b].0.0 as int, f.blocks@[b].1) by {
            if b == n {
                assert(holds_block(key, t2, end, nb));
            }
        }
    }
    assert forall|k: u64| m1.contains_key(k) implies #[trigger] holds_chain(key, t2, m1[k]) by {
        if k != c {
            assert(holds_chain(key, t1, m[k]));
            assert forall|b: int| 0 <= b < m1[k].blocks@.len() implies #[trigger] holds_block(key, t2, m1[k].blocks@[b].0.0 as int, m1[k].blocks@[b].1) by {
                assert(apart(o.blocks@[bl].0.0, m[k].blocks@[b].0.0));
                assert(holds_block(key, t1, m[k].blocks@[b].0.0 as int, m[k].blocks@[b].1));
                lemma_write_clear_of_block(key, t1, eo, w1.data@, m[k].blocks@[b].0.0 as int, m[k].blocks@[b].1);
            }
        }
    }
    assert forall|k1: u64, k2: u64, b1: int, b2: int|
        m1.contains_key(k1) && m1.contains_key(k2) && 0 <= b1 < m1[k1].blocks@.len() && 0 <= b2
            < m1[k2].blocks@.len() && (k1 != k2 || b1 != b2) implies apart(
            #[trigger] m1[k1].blocks@[b1].0.0,
            #[trigger] m1[k2].blocks@[b2].0.0,
        ) by {
        if k1 == c && b1 == n {
            if !(k2 == c && b2 == n) {
                assert(m1[k2].blocks@[b2].0 == m[k2].blocks@[b2].0);
            }
        } else if k2 == c && b2 == n {
            assert(m1[k1].blocks@[b1].0 == m[k1].blocks@[b1].0);
        } else {
            assert(m1[k1].blocks@[b1].0 == m[k1].blocks@[b1].0);
            assert(m1[k2].blocks@[b2].0 == m[k2].blocks@[b2].0);
        }
    }
}

/// Making entry `idx` of chain `c` (which becomes `f`) a directory whose one-block chain `nc`
/// starts at the end of the stream: writing that block at the end, then the changed entry
/// where it lies, leaves the stream holding the changed index with `nc` added, 2560 bytes
/// longer.
pub proof fn lemma_new_dir_keeps_stream(
    key: Option<Seq<u8>>,
    t: Seq<u8>,
    m: Map<u64, PackBlockChain>,
    c: u64,
    f: PackBlockChain,
    nc: PackBlockChain,
    idx: int,
    wb: WriteOp,
    we: WriteOp,
)
    requires
        index_wf(m),
        m.contains_key(c),
        chain_wf(f),
        chain_wf(nc),
        chain_offsets_fit(m[c]),
        t.len() <= u64::MAX,
        chain_block_offsets(f) == chain_block_offsets(m[c]),
        0 <= idx < chain_entries(m[c]).len(),
        chain_entries(f).len() == chain_entries(m[c]).len(),
        forall|j: int| 0 <= j < chain_entries(m[c]).len() && j != idx ==> #[trigger] chain_entries(f)[j] == chain_entries(m[c])[j],
        nc.blocks@.len() == 1,
        nc.blocks@[0].0 == BlockOffset(t.len() as u64),
        wb.offset == t.len(),
        wb.data@ == block_image(key, nc.blocks@[0].1),
        we.offset == entry_stream_offset(f, idx),
        we.data@ == entry_image(key, chain_entries(f)[idx]),
        holds_index(key, t, m),
        index_blocks_apart(m),
    ensures
        ({
            let t2 = apply_write(apply_write(t, wb.offset as int, wb.data@), we.offset as int, we.data@);
            &&& t2.len() == t.len() + 2560
            &&& holds_index(key, t2, m.insert(c, f).insert(t.len() as u64, nc))
            &&& index_blocks_apart(m.insert(c, f).insert(t.len() as u64, nc))
        }),
{
    let o = m[c];
    let end = t.len() as int;
    let m1 = m.insert(c, f);
    let m2 = m1.insert(end as u64, nc);
    lemma_held_blocks_within(key, t, m);
    let t1 = apply_write(t, end, wb.data@);
    lemma_write_at_end_keeps_index(key, t, m, wb.data@);
    assert(block_wf(nc.blocks@[0].1));
    assert(t1.subrange(end, end + 2560) =~= wb.data@);
    assert(holds_block(key, t1, end, nc.blocks@[0].1));
    assert(chain_entries(f) =~= chain_entries(o).update(idx, chain_entries(f)[idx]));
    assert(chain_offsets_fit(o));
    assert(m1.dom() =~= m.dom());
    lemma_index_entry_write(key, t1, m, m1, c, idx);
    let t2 = apply_write(t1, we.offset as int, we.data@);
    // the changed entry lies in a block of the chain, before the end
    lemma_chain_index_bound(o, idx);
    let bs = idx / 20;
    let j = idx % 20;
    assert(chain_block_offsets(f).len() == f.blocks@.len());
    assert(chain_block_offsets(o).len() == o.blocks@.len());
    assert(chain_block_offsets(f)[bs] == f.blocks@[bs].0);
    assert(chain_block_offsets(o)[bs] == o.blocks@[bs].0);
    assert(o.blocks@[bs].0.0 + 2560 <= end);
    assert(we.offset + 128 <= end);
    assert(t2.subrange(end, end + 2560) =~= t1.subrange(end, end + 2560)) by {
        assert forall|p: int| 0 <= p < 2560 implies #[trigger] t2.subrange(end, end + 2560)[p] == t1.subrange(end, end + 2560)[p] by {
            assert(t2[end + p] == t1[end + p]);
        }
    }
    assert(holds_chain(key, t2, nc)) by {
        assert forall|b: int| 0 <= b < nc.blocks@.len() implies #[trigger] holds_block(key, t2, nc.blocks@[b].0.0 as int, nc.blocks@[b].1) by {
            assert(b == 0);
        }
    }
    assert forall|k: u64| m2.contains_key(k) implies #[trigger] holds_chain(key, t2, m2[k]) by {
        if k != end as u64 {
            assert(m1.contains_key(k));
        }
    }
    lemma_held_blocks_within(key, t, m);
    assert forall|k1: u64, k2: u64, b1: int, b2: int|
        m2.contains_key(k1) && m2.contains_key(k2) && 0 <= b1 < m2[k1].blocks@.len() && 0 <= b2
            < m2[k2].blocks@.len() && (k1 != k2 || b1 != b2) implies apart(
            #[trigger] m2[k1].blocks@[b1].0.0,
            #[trigger] m2[k2].blocks@[b2].0.0,
        ) by {
        if k1 == end as u64 {
            assert(b1 == 0);
            if k2 != end as u64 {
                assert(m2[k2] == m1[k2]);
                if k2 == c {
                    assert(chain_block_offsets(f)[b2] == f.blocks@[b2].0);
                    assert(chain_block_offsets(o)[b2] == o.blocks@[b2].0);
                    assert(m[c].blocks@[b2].0.0 + 2560 <= end);
                } else {
                    assert(m[k2].blocks@[b2].0.0 + 2560 <= end);
                }
            }
        } else if k2 == end as u64 {
            assert(b2 == 0);
            assert(m2[k1] == m1[k1]);
            if k1 == c {
                assert(chain_block_offsets(f)[b1] == f.blocks@[b1].0);
                assert(chain_block_offsets(o)[b1] == o.blocks@[b1].0);
                assert(m[c].blocks@[b1].0.0 + 2560 <= end);
            } else {
                assert(m[k1].blocks@[b1].0.0 + 2560 <= end);
            }
        } else {
            assert(m2[k1] == m1[k1]);
            assert(m2[k2] == m1[k2]);
        }
    }
}

/// Every entry of every chain of `m` reads back from the bytes it is stored as.
pub open spec fn index_readable(m: Map<u64, PackBlockChain>) -> bool {
    forall|k: u64, b: int, j: int| m.contains_key(k) && 0 <= b < m[k].blocks@.len() && 0 <= j < 20
        ==> entry_rewritable(#[trigger] m[k].blocks@[b].1.entries@[j], Seq::new(128, |i: int| 0u8))
}

/// The chains of `i` are beginnings of those of `m`: each has the first blocks of the chain of
/// `m` with the same key, at the same offsets, with entries that match.
pub open spec fn index_prefix_of(i: Map<u64, PackBlockChain>, m: Map<u64, PackBlockChain>) -> bool {
    forall|k: u64| #[trigger] i.contains_key(k) ==> m.contains_key(k) && {
        let a = i[k];
        let f = m[k];
        &&& a.blocks@.len() <= f.blocks@.len()
        &&& forall|j: int| 0 <= j < a.blocks@.len() ==> #[trigger] chain_block_offsets(a)[j] == chain_block_offsets(f)[j]
        &&& forall|j: int| 0 <= j < chain_entries(a).len() ==> #[trigger] entries_match(chain_entries(a)[j], chain_entries(f)[j])
    }
}

/// Reading an index back, one step: a parser whose chains are beginnings of those of an index
/// `m` that a stream holds, handed the bytes of the next block of chain `c` of `m` (the first
/// block when `c` is not indexed yet) as the stream holds them unsealed, adds to `c` what the
/// parser's `progress` adds (`blk` appended at offset `b`), and its chains stay beginnings of
/// those of `m`.
pub proof fn lemma_parser_step_reads_back(
    key: Option<Seq<u8>>,
    s: Seq<u8>,
    m: Map<u64, PackBlockChain>,
    i0: Map<u64, PackBlockChain>,
    i1: Map<u64, PackBlockChain>,
    c: u64,
    b: BlockOffset,
    blk: PackBlock,
)
    requires
        index_wf(m),
        index_wf(i0),
        holds_index(key, s, m),
        index_readable(m),
        index_prefix_of(i0, m),
        m.contains_key(c),
        ({
            let n = if i0.contains_key(c) { i0[c].blocks@.len() as int } else { 0 };
            &&& n < m[c].blocks@.len()
            &&& m[c].blocks@[n].0 == b
            &&& block_parsed_from(blk, plain_block(m[c].blocks@[n].1))
        }),
        i1.dom() == i0.dom().insert(c),
        forall|k: u64| k != c && #[trigger] i0.contains_key(k) ==> i1[k] == i0[k],
        index_wf(i1),
        chain_entries(i1[c]) == (if i0.contains_key(c) { chain_entries(i0[c]) + blk.entries@ } else { blk.entries@ }),
        chain_block_offsets(i1[c]) == (if i0.contains_key(c) { chain_block_offsets(i0[c]).push(b) } else { seq![b] }),
    ensures
        index_prefix_of(i1, m),
        s.subrange(b.0 as int, b.0 + 2560) == sealed(key, plain_block(m[c].blocks@[if i0.contains_key(c) { i0[c].blocks@.len() as int } else { 0 }].1)),
{
    let n = if i0.contains_key(c) { i0[c].blocks@.len() as int } else { 0 };
    let f = m[c];
    let mb = f.blocks@[n].1;
    assert(chain_wf(f));
    assert(block_wf(mb));
    assert(holds_chain(key, s, f));
    assert(holds_block(key, s, f.blocks@[n].0.0 as int, mb));
    assert forall|k: int| 0 <= k < 20 implies entry_rewritable(#[trigger] mb.entries@[k], Seq::new(128, |i: int| 0u8)) by {
        assert(entry_rewritable(m[c].blocks@[n].1.entries@[k], Seq::new(128, |i: int| 0u8)));
    }
    lemma_held_block_reads_back(key, s, f.blocks@[n].0.0 as int, mb);
    let a = i1[c];
    assert(chain_wf(a));
    assert(chain_block_offsets(a).len() == a.blocks@.len());
    assert(chain_block_offsets(f).len() == f.blocks@.len());
    assert(a.blocks@.len() == n + 1) by {
        assert(chain_block_offsets(a).len() == n + 1);
    }
    assert forall|j: int| 0 <= j < a.blocks@.len() implies #[trigger] chain_block_offsets(a)[j] == chain_block_offsets(f)[j] by {
        if j < n {
            assert(chain_block_offsets(a)[j] == chain_block_offsets(i0[c])[j]);
        } else {
            assert(chain_block_offsets(f)[j] == f.blocks@[j].0);
        }
    }
    assert forall|j: int| 0 <= j < chain_entries(a).len() implies #[trigger] entries_match(chain_entries(a)[j], chain_entries(f)[j]) by {
        assert(chain_entries(a).len() == 20 * n + 20);
        if j < 20 * n {
            assert(chain_entries(a)[j] == chain_entries(i0[c])[j]);
            assert(chain_entries(i0[c]).len() == 20 * n);
        } else {
            let t = j - 20 * n;
            assert(chain_entries(a)[j] == blk.entries@[t]);
            assert(j / 20 == n && j % 20 == t) by (nonlinear_arith)
                requires j == 20 * n + t, 0 <= t < 20;
            lemma_chain_index(f, j);
            assert(entries_match(blk.entries@[t], mb.entries@[t]));
        }
    }
    assert forall|k: u64| #[trigger] i1.contains_key(k) implies m.contains_key(k) && {
        let a = i1[k];
        let f = m[k];
        &&& a.blocks@.len() <= f.blocks@.len()
        &&& forall|j: int| 0 <= j < a.blocks@.len() ==> #[trigger] chain_block_offsets(a)[j] == chain_block_offsets(f)[j]
        &&& forall|j: int| 0 <= j < chain_entries(a).len() ==> #[trigger] entries_match(chain_entries(a)[j], chain_entries(f)[j])
    } by {
        if k != c {
            assert(i0.contains_key(k));
        }
    }
}

} // verus!
