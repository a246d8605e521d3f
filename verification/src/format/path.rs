//! Archive paths: components separated by `/` or `\`.

use vstd::prelude::*;
use vstd::string::StringSliceAdditionalSpecFns;
use vstd::utf8::*;

verus! {

/// `/` or `\`.
pub open spec fn is_sep(b: u8) -> bool {
    b == 47u8 || b == 92u8
}

/// The index of the first separator of `s`, or its length.
pub open spec fn first_sep(s: Seq<u8>) -> int
    decreases s.len(),
{
    if s.len() == 0 {
        0
    } else if is_sep(s[0]) {
        0
    } else {
        1 + first_sep(s.drop_first())
    }
}

/// The index of the last separator of `s`, or -1.
pub open spec fn last_sep(s: Seq<u8>) -> int
    decreases s.len(),
{
    if s.len() == 0 {
        -1
    } else if is_sep(s.last()) {
        s.len() - 1
    } else {
        last_sep(s.drop_last())
    }
}

pub proof fn lemma_first_sep(s: Seq<u8>)
    ensures
        0 <= first_sep(s) <= s.len(),
        forall|j: int| 0 <= j < first_sep(s) ==> !is_sep(#[trigger] s[j]),
        first_sep(s) < s.len() ==> is_sep(s[first_sep(s)]),
    decreases s.len(),
{
    if s.len() > 0 && !is_sep(s[0]) {
        lemma_first_sep(s.drop_first());
        assert forall|j: int| 0 <= j < first_sep(s) implies !is_sep(#[trigger] s[j]) by {
            if j > 0 {
                assert(s[j] == s.drop_first()[j - 1]);
            }
        }
    }
}

pub proof fn lemma_first_sep_at(s: Seq<u8>, k: int)
    requires
        0 <= k <= s.len(),
        forall|j: int| 0 <= j < k ==> !is_sep(#[trigger] s[j]),
        k < s.len() ==> is_sep(s[k]),
    ensures
        first_sep(s) == k,
    decreases k,
{
    if k > 0 {
        assert forall|j: int| 0 <= j < k - 1 implies !is_sep(#[trigger] s.drop_first()[j]) by {
            assert(s.drop_first()[j] == s[j + 1]);
        }
        lemma_first_sep_at(s.drop_first(), k - 1);
    }
}

pub proof fn lemma_last_sep(s: Seq<u8>)
    ensures
        -1 <= last_sep(s) < s.len(),
        forall|j: int| last_sep(s) < j < s.len() ==> !is_sep(#[trigger] s[j]),
        last_sep(s) >= 0 ==> is_sep(s[last_sep(s)]),
    decreases s.len(),
{
    if s.len() > 0 && !is_sep(s.last()) {
        lemma_last_sep(s.drop_last());
        assert forall|j: int| last_sep(s) < j < s.len() implies !is_sep(#[trigger] s[j]) by {
            if j < s.len() - 1 {
                assert(s[j] == s.drop_last()[j]);
            }
        }
    }
}

pub proof fn lemma_last_sep_at(s: Seq<u8>, k: int)
    requires
        -1 <= k < s.len(),
        forall|j: int| k < j < s.len() ==> !is_sep(#[trigger] s[j]),
        k >= 0 ==> is_sep(s[k]),
    ensures
        last_sep(s) == k,
    decreases s.len(),
{
    if s.len() > 0 && k < s.len() - 1 {
        assert forall|j: int| k < j < s.drop_last().len() implies !is_sep(#[trigger] s.drop_last()[j]) by {
            assert(s.drop_last()[j] == s[j]);
        }
        lemma_last_sep_at(s.drop_last(), k);
    }
}

/// The components of a path, as `str::split` on both separators gives them: an empty path is
/// one empty component, and separators next to each other or at either end give empty ones.
pub open spec fn split_path(s: Seq<u8>) -> Seq<Seq<u8>>
    decreases s.len(),
{
    let k = first_sep(s);
    if k >= s.len() {
        seq![s]
    } else {
        proof {
            lemma_first_sep(s);
        }
        seq![s.take(k)] + split_path(s.skip(k + 1))
    }
}

/// The components of a path are those of the part before its last separator, then the part
/// after it; a path without separators is one component.
pub proof fn lemma_split_path_last(s: Seq<u8>)
    ensures
        last_sep(s) >= 0 ==> split_path(s) == split_path(s.take(last_sep(s))).push(s.skip(last_sep(s) + 1)),
        last_sep(s) < 0 ==> split_path(s) == seq![s],
    decreases s.len(),
{
    lemma_first_sep(s);
    lemma_last_sep(s);
    let f = first_sep(s);
    if f >= s.len() {
        lemma_last_sep_at(s, -1);
    } else {
        let r = s.skip(f + 1);
        lemma_split_path_last(r);
        lemma_last_sep(r);
        let k2 = last_sep(r);
        if k2 < 0 {
            assert forall|j: int| f < j < s.len() implies !is_sep(#[trigger] s[j]) by {
                assert(s[j] == r[j - f - 1]);
            }
            lemma_last_sep_at(s, f);
            let a = s.take(f);
            assert forall|j: int| 0 <= j < f implies !is_sep(#[trigger] a[j]) by {
                assert(a[j] == s[j]);
            }
            lemma_first_sep_at(a, f);
            assert(split_path(a) == seq![a]);
            assert(split_path(s) == seq![a] + seq![r]);
            assert(split_path(s) =~= split_path(a).push(r));
        } else {
            let k = f + 1 + k2;
            assert(s[k] == r[k2]);
            assert forall|j: int| k < j < s.len() implies !is_sep(#[trigger] s[j]) by {
                assert(s[j] == r[j - f - 1]);
            }
            lemma_last_sep_at(s, k);
            let a = s.take(k);
            assert forall|j: int| 0 <= j < f implies !is_sep(#[trigger] a[j]) by {
                assert(a[j] == s[j]);
            }
            assert(a[f] == s[f]);
            lemma_first_sep_at(a, f);
            assert(a.take(f) =~= s.take(f));
            assert(a.skip(f + 1) =~= r.take(k2));
            assert(s.skip(k + 1) =~= r.skip(k2 + 1));
            assert(split_path(a) == seq![s.take(f)] + split_path(r.take(k2)));
            assert(split_path(s) == seq![s.take(f)] + split_path(r));
            assert(split_path(r) == split_path(r.take(k2)).push(r.skip(k2 + 1)));
            assert(split_path(s) =~= split_path(a).push(s.skip(k + 1)));
        }
    }
}

/// Splits `s` at byte `k`, where an ASCII byte (or the end) is.
pub fn split_str_at<'a>(s: &'a str, k: usize) -> (r: (&'a str, &'a str))
    requires
        k <= s.spec_bytes().len(),
        k < s.spec_bytes().len() ==> s.spec_bytes()[k as int] < 0x80,
    ensures
        r.0.spec_bytes() == s.spec_bytes().take(k as int),
        r.1.spec_bytes() == s.spec_bytes().skip(k as int),
        r.0.spec_bytes().len() + r.1.spec_bytes().len() == s.spec_bytes().len(),
{
    proof {
        let b = s.spec_bytes();
        encode_utf8_valid_utf8(s@);
        is_char_boundary_start_end_of_seq(b);
        if k < b.len() {
            is_char_boundary_iff_not_is_continuation_byte(b, k as int);
        }
    }
    let r = s.split_at(k);
    proof {
        assert(r.0.spec_bytes() =~= s.spec_bytes().take(k as int));
        assert(r.1.spec_bytes() =~= s.spec_bytes().skip(k as int));
    }
    r
}

/// Drops the first byte of `s`, an ASCII byte.
pub fn skip_ascii<'a>(s: &'a str) -> (r: &'a str)
    requires
        s.spec_bytes().len() > 0,
        s.spec_bytes()[0] < 0x80,
    ensures
        r.spec_bytes() == s.spec_bytes().skip(1),
{
    proof {
        let b = s.spec_bytes();
        encode_utf8_valid_utf8(s@);
        is_char_boundary_start_end_of_seq(b);
        if b.len() > 1 {
            assert(is_char_boundary(b, 1)) by {
                reveal_with_fuel(is_char_boundary, 2);
                assert(is_leading_byte_width_1(b[0]));
            }
        }
    }
    let r = s.split_at(1);
    proof {
        assert(r.1.spec_bytes() =~= s.spec_bytes().skip(1));
    }
    r.1
}


/// The index of the first separator of `b`, or its length.
pub fn find_first_sep(b: &[u8]) -> (k: usize)
    ensures
        k == first_sep(b@),
{
    let mut i: usize = 0;
    while i < b.len()
        invariant
            i <= b@.len(),
            forall|j: int| 0 <= j < i ==> !is_sep(#[trigger] b@[j]),
        decreases b@.len() - i,
    {
        if b[i] == 47u8 || b[i] == 92u8 {
            proof { lemma_first_sep_at(b@, i as int); }
            return i;
        }
        i = i + 1;
    }
    proof { lemma_first_sep_at(b@, i as int); }
    i
}

/// The index of the last separator of `b`, if there is one.
pub fn find_last_sep(b: &[u8]) -> (r: Option<usize>)
    ensures
        r is None <==> last_sep(b@) < 0,
        r matches Some(k) ==> k == last_sep(b@),
{
    let mut i: usize = b.len();
    while i > 0
        invariant
            i <= b@.len(),
            forall|j: int| i <= j < b@.len() ==> !is_sep(#[trigger] b@[j]),
        decreases i,
    {
        if b[i - 1] == 47u8 || b[i - 1] == 92u8 {
            proof { lemma_last_sep_at(b@, i - 1); }
            return Some(i - 1);
        }
        i = i - 1;
    }
    proof { lemma_last_sep_at(b@, -1); }
    None
}

} // verus!
