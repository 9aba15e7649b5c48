//! Byte-string ordering, suffix and prefix tests.
//!
//! Paths and file names are handled as byte strings throughout the crate;
//! this module gives them a total lexicographic order and the suffix and
//! prefix predicates that classification and path mapping are built on.
use vstd::prelude::*;

verus! {

/// Dictionary order on byte strings: a prefix sorts before its extensions.
pub open spec fn lex_leq(a: Seq<u8>, b: Seq<u8>) -> bool
    decreases a.len(),
{
    if a.len() == 0 {
        true
    } else if b.len() == 0 {
        false
    } else if a[0] < b[0] {
        true
    } else if a[0] > b[0] {
        false
    } else {
        lex_leq(a.skip(1), b.skip(1))
    }
}

pub proof fn lemma_lex_leq_refl(a: Seq<u8>)
    ensures
        lex_leq(a, a),
    decreases a.len(),
{
    if a.len() > 0 {
        lemma_lex_leq_refl(a.skip(1));
    }
}

pub proof fn lemma_lex_leq_antisym(a: Seq<u8>, b: Seq<u8>)
    requires
        lex_leq(a, b),
        lex_leq(b, a),
    ensures
        a == b,
    decreases a.len(),
{
    if a.len() == 0 {
        assert(b.len() == 0);
        assert(a =~= b);
    } else {
        assert(b.len() > 0);
        assert(a[0] == b[0]);
        lemma_lex_leq_antisym(a.skip(1), b.skip(1));
        assert forall|i: int| 0 <= i < a.len() implies a[i] == b[i] by {
            if i > 0 {
                assert(a[i] == a.skip(1)[i - 1]);
                assert(b[i] == b.skip(1)[i - 1]);
            }
        }
        assert(a =~= b);
    }
}

pub proof fn lemma_lex_leq_trans(a: Seq<u8>, b: Seq<u8>, c: Seq<u8>)
    requires
        lex_leq(a, b),
        lex_leq(b, c),
    ensures
        lex_leq(a, c),
    decreases a.len(),
{
    if a.len() == 0 {
    } else {
        assert(b.len() > 0);
        assert(c.len() > 0);
        if a[0] == b[0] && b[0] == c[0] {
            lemma_lex_leq_trans(a.skip(1), b.skip(1), c.skip(1));
        }
    }
}

pub proof fn lemma_lex_leq_connected(a: Seq<u8>, b: Seq<u8>)
    ensures
        lex_leq(a, b) || lex_leq(b, a),
    decreases a.len(),
{
    if a.len() > 0 && b.len() > 0 && a[0] == b[0] {
        lemma_lex_leq_connected(a.skip(1), b.skip(1));
    }
}

/// When two byte strings agree on their first `i` bytes, their order is
/// decided by what follows.
proof fn lemma_lex_leq_skip(a: Seq<u8>, b: Seq<u8>, i: int)
    requires
        0 <= i <= a.len(),
        0 <= i <= b.len(),
        forall|j: int| 0 <= j < i ==> a[j] == b[j],
    ensures
        lex_leq(a, b) == lex_leq(a.skip(i), b.skip(i)),
    decreases i,
{
    if i == 0 {
        assert(a.skip(0) =~= a);
        assert(b.skip(0) =~= b);
    } else {
        assert(a.len() > 0 && b.len() > 0);
        assert(a[0] == b[0]);
        assert forall|j: int| 0 <= j < i - 1 implies a.skip(1)[j] == b.skip(1)[j] by {
            assert(a.skip(1)[j] == a[j + 1]);
            assert(b.skip(1)[j] == b[j + 1]);
        }
        lemma_lex_leq_skip(a.skip(1), b.skip(1), i - 1);
        assert(a.skip(1).skip(i - 1) =~= a.skip(i));
        assert(b.skip(1).skip(i - 1) =~= b.skip(i));
    }
}

/// Decides the lexicographic order on two byte strings.
pub fn bytes_le(a: &Vec<u8>, b: &Vec<u8>) -> (r: bool)
    ensures
        r == lex_leq(a@, b@),
{
    let mut i: usize = 0;
    loop
        invariant
            i <= a@.len(),
            i <= b@.len(),
            forall|j: int| 0 <= j < i ==> a@[j] == b@[j],
        decreases a@.len() - i,
    {
        proof {
            lemma_lex_leq_skip(a@, b@, i as int);
        }
        if i >= a.len() {
            assert(a@.skip(i as int).len() == 0);
            return true;
        }
        if i >= b.len() {
            assert(b@.skip(i as int).len() == 0);
            assert(a@.skip(i as int).len() > 0);
            return false;
        }
        let x = a[i];
        let y = b[i];
        assert(a@.skip(i as int)[0] == a@[i as int]);
        assert(b@.skip(i as int)[0] == b@[i as int]);
        if x < y {
            return true;
        }
        if x > y {
            return false;
        }
        i += 1;
    }
}

/// Whether `s` ends with `suffix`.
pub open spec fn spec_ends_with(s: Seq<u8>, suffix: Seq<u8>) -> bool {
    suffix.len() <= s.len() && s.skip(s.len() - suffix.len() as int) == suffix
}

/// Decides whether `name` ends with `suffix`.
pub fn has_suffix(name: &[u8], suffix: &[u8]) -> (r: bool)
    ensures
        r == spec_ends_with(name@, suffix@),
{
    let nlen: usize = name.len();
    let slen: usize = suffix.len();
    if slen > nlen {
        assert(!spec_ends_with(name@, suffix@));
        return false;
    }
    let off: usize = nlen - slen;
    let mut i: usize = 0;
    while i < slen
        invariant
            nlen == name@.len(),
            slen == suffix@.len(),
            slen <= nlen,
            off == nlen - slen,
            i <= slen,
            forall|j: int| 0 <= j < i ==> name@[off + j] == suffix@[j],
        decreases slen - i,
    {
        if name[off + i] != suffix[i] {
            assert(name@.skip(off as int)[i as int] != suffix@[i as int]);
            return false;
        }
        i += 1;
    }
    assert(name@.skip(off as int) =~= suffix@);
    true
}

/// Whether `s` begins with `prefix`.
pub open spec fn spec_starts_with(s: Seq<u8>, prefix: Seq<u8>) -> bool {
    prefix.len() <= s.len() && s.take(prefix.len() as int) == prefix
}

/// Decides whether `name` begins with `prefix`.
pub fn has_prefix(name: &[u8], prefix: &[u8]) -> (r: bool)
    ensures
        r == spec_starts_with(name@, prefix@),
{
    let nlen: usize = name.len();
    let plen: usize = prefix.len();
    if plen > nlen {
        assert(!spec_starts_with(name@, prefix@));
        return false;
    }
    let mut i: usize = 0;
    while i < plen
        invariant
            nlen == name@.len(),
            plen == prefix@.len(),
            plen <= nlen,
            i <= plen,
            forall|j: int| 0 <= j < i ==> name@[j] == prefix@[j],
        decreases plen - i,
    {
        if name[i] != prefix[i] {
            assert(name@.take(plen as int)[i as int] != prefix@[i as int]);
            return false;
        }
        i += 1;
    }
    assert(name@.take(plen as int) =~= prefix@);
    true
}

/// Copies a byte slice into a fresh vector.
pub fn copy_bytes(b: &[u8]) -> (r: Vec<u8>)
    ensures
        r@ == b@,
{
    let mut out: Vec<u8> = Vec::new();
    out.extend_from_slice(b);
    assert(out@ =~= b@);
    out
}

/// Appends a byte slice to a vector.
pub fn append_bytes(out: &mut Vec<u8>, b: &[u8])
    ensures
        final(out)@ == old(out)@ + b@,
{
    out.extend_from_slice(b);
}

} // verus!
