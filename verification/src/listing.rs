//! The order in which a directory's contents are listed: directories first, then files, each
//! by name, entries that compare alike in the order they are stored.

use vstd::prelude::*;
use vstd::string::StringSliceAdditionalSpecFns;
use crate::file_handle::{backlink, is_backlink};
use crate::format::entry::{DirectoryOrFile, PackEntry, name_bytes};

verus! {

/// `a` comes strictly before `b` in byte-wise lexicographic order, the order of `str`'s `Ord`.
pub open spec fn bytes_lt(a: Seq<u8>, b: Seq<u8>) -> bool
    decreases a.len(),
{
    if a.len() == 0 {
        b.len() > 0
    } else if b.len() == 0 {
        false
    } else if a[0] != b[0] {
        a[0] < b[0]
    } else {
        bytes_lt(a.drop_first(), b.drop_first())
    }
}

/// No byte string comes before itself.
pub proof fn lemma_bytes_lt_irreflexive(a: Seq<u8>)
    ensures
        !bytes_lt(a, a),
    decreases a.len(),
{
    if a.len() > 0 {
        lemma_bytes_lt_irreflexive(a.drop_first());
    }
}

/// Byte-wise order is transitive.
pub proof fn lemma_bytes_lt_transitive(a: Seq<u8>, b: Seq<u8>, c: Seq<u8>)
    requires
        bytes_lt(a, b),
        bytes_lt(b, c),
    ensures
        bytes_lt(a, c),
    decreases a.len(),
{
    if a.len() > 0 && b.len() > 0 && c.len() > 0 && a[0] == b[0] && b[0] == c[0] {
        lemma_bytes_lt_transitive(a.drop_first(), b.drop_first(), c.drop_first());
    }
}

/// Of two different byte strings, one comes before the other.
pub proof fn lemma_bytes_lt_total(a: Seq<u8>, b: Seq<u8>)
    requires
        a != b,
    ensures
        bytes_lt(a, b) || bytes_lt(b, a),
    decreases a.len(),
{
    if a.len() > 0 && b.len() > 0 && a[0] == b[0] {
        if a.drop_first() == b.drop_first() {
            assert(a =~= seq![a[0]] + a.drop_first());
            assert(b =~= seq![b[0]] + b.drop_first());
        }
        lemma_bytes_lt_total(a.drop_first(), b.drop_first());
    } else if a.len() == 0 && b.len() == 0 {
        assert(a =~= b);
    }
}

/// Names are compared from their first byte: where two names first differ, the one with the
/// smaller byte comes first.
pub proof fn lemma_bytes_lt_first_difference(a: Seq<u8>, b: Seq<u8>, k: int)
    requires
        0 <= k < a.len(),
        k < b.len(),
        a.take(k) == b.take(k),
        a[k] < b[k],
    ensures
        bytes_lt(a, b),
        !bytes_lt(b, a),
    decreases k,
{
    if k > 0 {
        assert(a[0] == a.take(k)[0]);
        assert(b[0] == b.take(k)[0]);
        assert(a.drop_first().take(k - 1) =~= a.take(k).drop_first());
        assert(b.drop_first().take(k - 1) =~= b.take(k).drop_first());
        lemma_bytes_lt_first_difference(a.drop_first(), b.drop_first(), k - 1);
    }
}

/// A name comes before every longer name that it begins.
pub proof fn lemma_bytes_lt_prefix(a: Seq<u8>, b: Seq<u8>)
    requires
        a.len() < b.len(),
        b.take(a.len() as int) == a,
    ensures
        bytes_lt(a, b),
        !bytes_lt(b, a),
    decreases a.len(),
{
    if a.len() > 0 {
        assert(b[0] == b.take(a.len() as int)[0]);
        assert(b.drop_first().take(a.len() - 1) =~= a.drop_first());
        lemma_bytes_lt_prefix(a.drop_first(), b.drop_first());
    }
}

/// An entry that a listing shows: not empty, and not a directory's `.` or `..` link.
pub open spec fn listable(e: PackEntry) -> bool {
    e.entry is Some && !backlink(e)
}

/// 0 for a directory, 1 otherwise: directories are listed first.
pub open spec fn kind_rank(e: PackEntry) -> int {
    match e.entry {
        Some(ne) => match ne.kind {
            DirectoryOrFile::Directory { .. } => 0,
            DirectoryOrFile::File { .. } => 1,
        },
        None => 1,
    }
}

/// The bytes of an entry's name (none for an empty entry).
pub open spec fn listed_name(e: PackEntry) -> Seq<u8> {
    match e.entry {
        Some(ne) => name_bytes(ne.name@),
        None => Seq::empty(),
    }
}

/// `a` is listed strictly before `b`: a directory before a file, otherwise by name.
pub open spec fn listed_strictly_before(a: PackEntry, b: PackEntry) -> bool {
    kind_rank(a) < kind_rank(b) || (kind_rank(a) == kind_rank(b) && bytes_lt(listed_name(a), listed_name(b)))
}

/// `a` and `b` compare alike: the same kind and the same name.
pub open spec fn listed_alike(a: PackEntry, b: PackEntry) -> bool {
    kind_rank(a) == kind_rank(b) && listed_name(a) == listed_name(b)
}

/// In a listing of `entries`, the entry at `i` may come before the one at `j`: the latter does
/// not sort strictly first, and of two entries that compare alike the one stored first comes
/// first.
pub open spec fn listed_before(entries: Seq<PackEntry>, i: int, j: int) -> bool {
    &&& !listed_strictly_before(entries[j], entries[i])
    &&& listed_alike(entries[i], entries[j]) ==> i < j
}

proof fn lemma_listed_order(a: PackEntry, b: PackEntry, c: PackEntry)
    ensures
        !listed_strictly_before(a, a),
        listed_strictly_before(a, b) && listed_strictly_before(b, c) ==> listed_strictly_before(a, c),
        !listed_strictly_before(a, b) && !listed_strictly_before(b, a) ==> listed_alike(a, b),
{
    lemma_bytes_lt_irreflexive(listed_name(a));
    if listed_strictly_before(a, b) && listed_strictly_before(b, c) && kind_rank(a) == kind_rank(b)
        && kind_rank(b) == kind_rank(c) {
        lemma_bytes_lt_transitive(listed_name(a), listed_name(b), listed_name(c));
    }
    if listed_name(a) != listed_name(b) {
        lemma_bytes_lt_total(listed_name(a), listed_name(b));
    }
}

/// Whether `a` comes strictly before `b` byte-wise.
fn bytes_less(a: &[u8], b: &[u8]) -> (r: bool)
    ensures
        r == bytes_lt(a@, b@),
{
    let mut k: usize = 0;
    proof {
        assert(a@.skip(0) =~= a@);
        assert(b@.skip(0) =~= b@);
    }
    while k < a.len() && k < b.len()
        invariant
            k <= a@.len(),
            k <= b@.len(),
            bytes_lt(a@, b@) == bytes_lt(a@.skip(k as int), b@.skip(k as int)),
        decreases a@.len() - k,
    {
        if a[k] != b[k] {
            proof {
                assert(a@.skip(k as int)[0] == a@[k as int]);
                assert(b@.skip(k as int)[0] == b@[k as int]);
            }
            return a[k] < b[k];
        }
        proof {
            assert(a@.skip(k as int).drop_first() =~= a@.skip(k + 1));
            assert(b@.skip(k as int).drop_first() =~= b@.skip(k + 1));
        }
        k = k + 1;
    }
    k < b.len()
}

/// Whether the listing shows `e`.
fn is_listable(e: &PackEntry) -> (r: bool)
    ensures
        r == listable(*e),
{
    e.entry.is_some() && !is_backlink(e)
}

fn rank(e: &PackEntry) -> (r: u8)
    ensures
        r as int == kind_rank(*e),
{
    match &e.entry {
        Some(ne) => match ne.kind {
            DirectoryOrFile::Directory { .. } => 0,
            DirectoryOrFile::File { .. } => 1,
        },
        None => 1,
    }
}

/// Whether `a` is listed strictly before `b`.
fn strictly_before(a: &PackEntry, b: &PackEntry) -> (r: bool)
    ensures
        r == listed_strictly_before(*a, *b),
{
    let ra = rank(a);
    let rb = rank(b);
    if ra != rb {
        return ra < rb;
    }
    let na: &[u8] = match &a.entry {
        Some(ne) => ne.name.as_str().as_bytes(),
        None => &[],
    };
    let nb: &[u8] = match &b.entry {
        Some(ne) => ne.name.as_str().as_bytes(),
        None => &[],
    };
    proof {
        assert(na@ =~= listed_name(*a));
        assert(nb@ =~= listed_name(*b));
    }
    bytes_less(na, nb)
}

/// What a listing built from the first `i` entries holds: indices of listable entries below
/// `i`, each once, all of them, in listing order.
pub open spec fn partial_listing(e: Seq<PackEntry>, r: Seq<usize>, i: int) -> bool {
    &&& forall|k: int| 0 <= k < r.len() ==> #[trigger] r[k] < i
    &&& forall|k: int| 0 <= k < r.len() ==> listable(e[#[trigger] r[k] as int])
    &&& forall|t: int| 0 <= t < i && listable(#[trigger] e[t]) ==> r.contains(t as usize)
    &&& r.no_duplicates()
    &&& forall|j: int, k: int| 0 <= j < k < r.len() ==> listed_before(e, #[trigger] r[j] as int, #[trigger] r[k] as int)
}

/// Inserting the listable entry `i` before the first listed entry that it sorts strictly before
/// (or at the end) extends a listing of the first `i` entries to the first `i + 1`.
proof fn lemma_insert_listing(e: Seq<PackEntry>, old_r: Seq<usize>, p: int, i: usize)
    requires
        i < e.len(),
        partial_listing(e, old_r, i as int),
        listable(e[i as int]),
        0 <= p <= old_r.len(),
        forall|q: int| 0 <= q < p ==> !listed_strictly_before(e[i as int], #[trigger] e[old_r[q] as int]),
        p < old_r.len() ==> listed_strictly_before(e[i as int], e[old_r[p] as int]),
    ensures
        partial_listing(e, old_r.insert(p, i), i + 1),
{
    let r = old_r.insert(p, i);
    assert forall|k: int| 0 <= k < r.len() implies #[trigger] r[k] < i + 1 && listable(e[r[k] as int]) by {
        if k < p {
            assert(r[k] == old_r[k]);
        } else if k > p {
            assert(r[k] == old_r[k - 1]);
        }
    }
    assert forall|t: int| 0 <= t < i + 1 && listable(#[trigger] e[t]) implies r.contains(t as usize) by {
        if t < i {
            assert(old_r.contains(t as usize));
            let q = choose|q: int| 0 <= q < old_r.len() && old_r[q] == t as usize;
            if q < p {
                assert(r[q] == t as usize);
            } else {
                assert(r[q + 1] == t as usize);
            }
        } else {
            assert(r[p] == t as usize);
        }
    }
    assert forall|a: int, b: int| 0 <= a < r.len() && 0 <= b < r.len() && a != b implies r[a] != r[b] by {
        if a != p && b != p {
            let a0 = if a < p { a } else { a - 1 };
            let b0 = if b < p { b } else { b - 1 };
            assert(r[a] == old_r[a0]);
            assert(r[b] == old_r[b0]);
        } else if a == p {
            let b0 = if b < p { b } else { b - 1 };
            assert(r[b] == old_r[b0]);
            assert(old_r[b0] < i);
        } else {
            let a0 = if a < p { a } else { a - 1 };
            assert(r[a] == old_r[a0]);
            assert(old_r[a0] < i);
        }
    }
    assert forall|j: int, k: int| 0 <= j < k < r.len() implies listed_before(e, #[trigger] r[j] as int, #[trigger] r[k] as int) by {
        let ej = e[r[j] as int];
        let ek = e[r[k] as int];
        if j != p && k != p {
            let j0 = if j < p { j } else { j - 1 };
            let k0 = if k < p { k } else { k - 1 };
            assert(r[j] == old_r[j0]);
            assert(r[k] == old_r[k0]);
            assert(listed_before(e, old_r[j0] as int, old_r[k0] as int));
        } else if k == p {
            assert(r[j] == old_r[j]);
            assert(!listed_strictly_before(e[i as int], e[old_r[j] as int]));
            assert(old_r[j] < i);
        } else {
            let k0 = k - 1;
            assert(r[k] == old_r[k0]);
            assert(r[j] == i);
            let ep = e[old_r[p] as int];
            lemma_listed_order(ek, e[i as int], ep);
            lemma_listed_order(ek, ep, ek);
            lemma_listed_order(e[i as int], ep, ek);
            if k0 > p {
                assert(listed_before(e, old_r[p] as int, old_r[k0] as int));
            }
        }
    }
}

/// The indices of the entries a listing of a directory shows, in the order it shows them:
/// empty entries and the `.` and `..` links are left out; directories come before files, each
/// sorted by name, and entries that compare alike keep the order in which they are stored.
pub fn listing_order(entries: &[PackEntry]) -> (r: Vec<usize>)
    ensures
        forall|k: int| 0 <= k < r.len() ==> #[trigger] r[k] < entries@.len() && listable(entries@[r[k] as int]),
        forall|i: int| 0 <= i < entries@.len() && listable(#[trigger] entries@[i]) ==> r@.contains(i as usize),
        r@.no_duplicates(),
        forall|j: int, k: int| 0 <= j < k < r.len() ==> listed_before(entries@, #[trigger] r[j] as int, #[trigger] r[k] as int),
{
    let n = entries.len();
    let mut r: Vec<usize> = Vec::new();
    let mut i: usize = 0;
    while i < n
        invariant
            n == entries@.len(),
            i <= n,
            partial_listing(entries@, r@, i as int),
        decreases n - i,
    {
        if is_listable(&entries[i]) {
            let mut p: usize = 0;
            while p < r.len() && !strictly_before(&entries[i], &entries[r[p]])
                invariant
                    n == entries@.len(),
                    i < n,
                    p <= r.len(),
                    partial_listing(entries@, r@, i as int),
                    forall|q: int| 0 <= q < p ==> !listed_strictly_before(entries@[i as int], #[trigger] entries@[r[q] as int]),
                decreases r.len() - p,
            {
                p = p + 1;
            }
            let ghost old_r = r@;
            r.insert(p, i);
            proof {
                lemma_insert_listing(entries@, old_r, p as int, i);
            }
        }
        i = i + 1;
    }
    r
}

} // verus!
