//! Little-endian integer encoding of byte sequences.

use vstd::prelude::*;

verus! {

/// `256^n`.
pub open spec fn pow256(n: nat) -> nat
    decreases n,
{
    if n == 0 {
        1
    } else {
        256 * pow256((n - 1) as nat)
    }
}

/// The unsigned integer that the little-endian byte sequence `s` denotes.
pub open spec fn le_uint(s: Seq<u8>) -> nat
    decreases s.len(),
{
    if s.len() == 0 {
        0
    } else {
        s[0] as nat + 256 * le_uint(s.drop_first())
    }
}

/// The `n` least significant bytes of `x`, least significant first.
pub open spec fn le_bytes(x: nat, n: nat) -> Seq<u8>
    decreases n,
{
    if n == 0 {
        Seq::empty()
    } else {
        seq![(x % 256) as u8] + le_bytes(x / 256, (n - 1) as nat)
    }
}

pub proof fn lemma_pow256_positive(n: nat)
    ensures
        pow256(n) >= 1,
    decreases n,
{
    if n > 0 {
        lemma_pow256_positive((n - 1) as nat);
    }
}

pub proof fn lemma_le_uint_bound(s: Seq<u8>)
    ensures
        le_uint(s) < pow256(s.len()),
    decreases s.len(),
{
    if s.len() > 0 {
        lemma_le_uint_bound(s.drop_first());
        let r = le_uint(s.drop_first());
        let p = pow256(s.drop_first().len());
        assert(s[0] as nat + 256 * r < 256 * p) by (nonlinear_arith)
            requires
                r < p,
                s[0] < 256,
        ;
    }
}

/// The encoding of zero is all zero bytes.
pub proof fn lemma_le_bytes_zero(n: nat)
    ensures
        le_bytes(0, n).len() == n,
        forall|j: int| 0 <= j < n ==> #[trigger] le_bytes(0, n)[j] == 0,
    decreases n,
{
    if n > 0 {
        lemma_le_bytes_zero((n - 1) as nat);
        assert forall|j: int| 0 <= j < n implies #[trigger] le_bytes(0, n)[j] == 0 by {
            if j > 0 {
                assert(le_bytes(0, n)[j] == le_bytes(0, (n - 1) as nat)[j - 1]);
            }
        }
    }
}

pub proof fn lemma_le_bytes_len(x: nat, n: nat)
    ensures
        le_bytes(x, n).len() == n,
    decreases n,
{
    if n > 0 {
        lemma_le_bytes_len(x / 256, (n - 1) as nat);
    }
}

/// Decoding the encoding of `x` in `n` bytes gives back `x` when it fits.
pub proof fn lemma_le_uint_of_le_bytes(x: nat, n: nat)
    requires
        x < pow256(n),
    ensures
        le_uint(le_bytes(x, n)) == x,
    decreases n,
{
    lemma_le_bytes_len(x, n);
    if n > 0 {
        let p = pow256((n - 1) as nat);
        assert(x / 256 < p) by (nonlinear_arith)
            requires
                x < 256 * p,
        ;
        lemma_le_uint_of_le_bytes(x / 256, (n - 1) as nat);
        let s = le_bytes(x, n);
        assert(s.drop_first() =~= le_bytes(x / 256, (n - 1) as nat));
        assert(x == x % 256 + 256 * (x / 256)) by (nonlinear_arith);
    }
}

/// Encoding the value of a byte sequence in as many bytes gives back the sequence.
pub proof fn lemma_le_bytes_of_le_uint(s: Seq<u8>)
    ensures
        le_bytes(le_uint(s), s.len()) == s,
    decreases s.len(),
{
    if s.len() > 0 {
        let r = le_uint(s.drop_first());
        let v = s[0] as nat + 256 * r;
        assert(v % 256 == s[0] as nat && v / 256 == r) by (nonlinear_arith)
            requires
                v == s[0] as nat + 256 * r,
                s[0] < 256,
        ;
        lemma_le_bytes_of_le_uint(s.drop_first());
        assert(le_bytes(v, s.len()) =~= s);
    }
}

/// Reads the little-endian value of `n` bytes of `buf` starting at `start`.
pub fn read_le(buf: &[u8], start: usize, n: usize) -> (r: u64)
    requires
        n <= 8,
        start + n <= buf@.len(),
    ensures
        r as nat == le_uint(buf@.subrange(start as int, start + n)),
{
    let mut v: u64 = 0;
    let mut i: usize = n;
    let blen = buf.len();
    while i > 0
        invariant
            i <= n <= 8,
            blen == buf@.len(),
            start + n <= buf@.len(),
            v as nat == le_uint(buf@.subrange(start + i, start + n)),
            v < pow256((n - i) as nat),
        decreases i,
    {
        let ghost old_v = v;
        let b = buf[start + i - 1];
        proof {
            let s = buf@.subrange(start + i - 1, start + n);
            assert(s.drop_first() =~= buf@.subrange(start + i, start + n));
            lemma_pow256_le_8((n - i) as nat);
            let p = pow256((n - i) as nat);
            assert(old_v * 256 + b < 256 * p) by (nonlinear_arith)
                requires
                    old_v < p,
                    b < 256,
            ;
            assert(256 * p <= pow256(8)) by {
                lemma_pow256_mono((n - i + 1) as nat, 8);
            }
            lemma_pow256_values();
        }
        v = v * 256 + b as u64;
        i = i - 1;
    }
    assert(buf@.subrange(start as int, start + n) =~= buf@.subrange(start + i, start + n));
    v
}

/// The powers that bound the fixed-width integers.
/// The value of two byte strings one after the other: the first, plus the second shifted above
/// it.
pub proof fn lemma_le_uint_concat(a: Seq<u8>, b: Seq<u8>)
    ensures
        le_uint(a + b) == le_uint(a) + pow256(a.len()) * le_uint(b),
    decreases a.len(),
{
    if a.len() == 0 {
        assert(a + b =~= b);
        assert(le_uint(a) == 0);
        assert(pow256(a.len()) == 1);
        assert(1 * le_uint(b) == le_uint(b));
    } else {
        assert((a + b).drop_first() =~= a.drop_first() + b);
        lemma_le_uint_concat(a.drop_first(), b);
        let x = le_uint(a.drop_first());
        let y = le_uint(b);
        let p = pow256(a.drop_first().len());
        assert(256 * (x + p * y) == 256 * x + (256 * p) * y) by (nonlinear_arith);
        assert((a + b)[0] == a[0]);
        assert(pow256(a.len()) == 256 * p);
        assert(le_uint(a + b) == a[0] as nat + 256 * le_uint((a + b).drop_first()));
        assert(le_uint(a) == a[0] as nat + 256 * x);
        assert(pow256(a.len()) * y == (256 * p) * y);
    }
}

pub proof fn lemma_pow256_values()
    ensures
        pow256(1) == 0x100,
        pow256(2) == 0x1_0000,
        pow256(4) == 0x1_0000_0000,
        pow256(8) == 0x1_0000_0000_0000_0000,
{
    reveal_with_fuel(pow256, 9);
}

proof fn lemma_pow256_le_8(n: nat)
    requires
        n <= 8,
    ensures
        pow256(n) <= pow256(8),
{
    lemma_pow256_mono(n, 8);
}

pub proof fn lemma_pow256_mono(a: nat, b: nat)
    requires
        a <= b,
    ensures
        pow256(a) <= pow256(b),
    decreases b,
{
    if a < b {
        lemma_pow256_mono(a, (b - 1) as nat);
        lemma_pow256_positive((b - 1) as nat);
    }
}

/// Writes the `n` least significant bytes of `x` into `buf` at `start`, least significant first.
pub fn write_le(buf: &mut [u8], start: usize, n: usize, x: u64)
    requires
        start + n <= old(buf)@.len(),
    ensures
        final(buf)@.len() == old(buf)@.len(),
        final(buf)@.subrange(start as int, start + n) == le_bytes(x as nat, n as nat),
        forall|j: int|
            0 <= j < old(buf)@.len() && !(start <= j < start + n) ==> #[trigger] final(buf)@[j]
                == old(buf)@[j],
{
    let mut v: u64 = x;
    let mut i: usize = 0;
    let blen = buf.len();
    while i < n
        invariant
            start + n <= buf@.len(),
            blen == buf@.len(),
            buf@.len() == old(buf)@.len(),
            i <= n,
            buf@.subrange(start as int, start + i) + le_bytes(v as nat, (n - i) as nat)
                == le_bytes(x as nat, n as nat),
            forall|j: int|
                0 <= j < old(buf)@.len() && !(start <= j < start + i) ==> #[trigger] buf@[j]
                    == old(buf)@[j],
        decreases n - i,
    {
        let ghost pre = buf@;
        buf[start + i] = (v % 256) as u8;
        proof {
            let rest = le_bytes(v as nat, (n - i) as nat);
            assert(rest =~= seq![(v % 256) as u8] + le_bytes((v / 256) as nat, (n - i - 1) as nat));
            assert(buf@.subrange(start as int, start + i + 1) =~= pre.subrange(start as int, start + i)
                + seq![(v % 256) as u8]);
        }
        v = v / 256;
        i = i + 1;
    }
    proof {
        assert(le_bytes(v as nat, 0) =~= Seq::<u8>::empty());
        assert(buf@.subrange(start as int, start + n) + Seq::<u8>::empty() =~= buf@.subrange(start as int, start + n));
    }
}

} // verus!

verus! {

/// Copies `n` bytes of `src` starting at `src_start` into `dst` at `dst_start`.
pub fn copy_bytes(dst: &mut [u8], dst_start: usize, src: &[u8], src_start: usize, n: usize)
    requires
        dst_start + n <= old(dst)@.len(),
        src_start + n <= src@.len(),
    ensures
        final(dst)@.len() == old(dst)@.len(),
        final(dst)@.subrange(dst_start as int, dst_start + n) == src@.subrange(
            src_start as int,
            src_start + n,
        ),
        forall|j: int|
            0 <= j < old(dst)@.len() && !(dst_start <= j < dst_start + n) ==> #[trigger] final(dst)@[j] == old(dst)@[j],
{
    let mut i: usize = 0;
    let dlen = dst.len();
    let slen = src.len();
    while i < n
        invariant
            slen == src@.len(),
            dst_start + n <= dst@.len(),
            src_start + n <= src@.len(),
            dlen == dst@.len(),
            dst@.len() == old(dst)@.len(),
            i <= n,
            forall|j: int| 0 <= j < i ==> #[trigger] dst@[dst_start + j] == src@[src_start + j],
            forall|j: int|
                0 <= j < old(dst)@.len() && !(dst_start <= j < dst_start + i) ==> #[trigger] dst@[j]
                    == old(dst)@[j],
        decreases n - i,
    {
        dst[dst_start + i] = src[src_start + i];
        i = i + 1;
    }
    assert forall|j: int| 0 <= j < n implies #[trigger] dst@.subrange(dst_start as int, dst_start + n)[j]
        == src@.subrange(src_start as int, src_start + n)[j] by {
        assert(dst@[dst_start + j] == src@[src_start + j]);
    }
    assert(dst@.subrange(dst_start as int, dst_start + n) =~= src@.subrange(
        src_start as int,
        src_start + n,
    ));
}

/// Whether `a` and `b` hold the same bytes.
pub fn bytes_eq(a: &[u8], b: &[u8]) -> (r: bool)
    ensures
        r == (a@ == b@),
{
    if a.len() != b.len() {
        return false;
    }
    let mut i: usize = 0;
    while i < a.len()
        invariant
            a@.len() == b@.len(),
            i <= a@.len(),
            forall|j: int| 0 <= j < i ==> a@[j] == b@[j],
        decreases a@.len() - i,
    {
        if a[i] != b[i] {
            return false;
        }
        i = i + 1;
    }
    assert(a@ =~= b@);
    true
}

} // verus!

verus! {

/// `buf` agrees with `target` below `k` and with `orig` from `k` on.
pub open spec fn written_up_to(buf: Seq<u8>, target: Seq<u8>, orig: Seq<u8>, k: int) -> bool {
    &&& buf.len() == target.len() == orig.len()
    &&& 0 <= k <= buf.len()
    &&& forall|j: int| 0 <= j < k ==> #[trigger] buf[j] == target[j]
    &&& forall|j: int| k <= j < buf.len() ==> #[trigger] buf[j] == orig[j]
}

/// Writing the next `n` bytes of `target` moves the written prefix on by `n`.
pub proof fn lemma_written_extend(
    before: Seq<u8>,
    after: Seq<u8>,
    target: Seq<u8>,
    orig: Seq<u8>,
    k: int,
    n: int,
)
    requires
        written_up_to(before, target, orig, k),
        0 <= n,
        k + n <= before.len(),
        after.len() == before.len(),
        forall|j: int| 0 <= j < n ==> after[k + j] == #[trigger] target[k + j],
        forall|j: int|
            0 <= j < before.len() && !(k <= j < k + n) ==> #[trigger] after[j] == before[j],
    ensures
        written_up_to(after, target, orig, k + n),
{
    assert forall|j: int| 0 <= j < k + n implies #[trigger] after[j] == target[j] by {
        if j >= k {
            assert(after[k + (j - k)] == target[k + (j - k)]);
        }
    }
}

} // verus!
