//! The lexicographic order on byte strings, in which keys are kept and scanned.

use vstd::prelude::*;

verus! {

/// Length of the longest common prefix of `a` and `b`.
pub open spec fn common_len<T>(a: Seq<T>, b: Seq<T>) -> nat
    decreases a.len(),
{
    if a.len() > 0 && b.len() > 0 && a[0] == b[0] {
        1 + common_len(a.drop_first(), b.drop_first())
    } else {
        0
    }
}

/// `a` sorts strictly before `b`: at the first position where the two differ,
/// either `a` has ended or `a` holds the smaller byte.
pub open spec fn lex_lt(a: Seq<u8>, b: Seq<u8>) -> bool {
    let n = common_len(a, b) as int;
    n < b.len() && (n == a.len() || a[n] < b[n])
}

/// `a` sorts before `b` or equals it.
pub open spec fn lex_le(a: Seq<u8>, b: Seq<u8>) -> bool {
    !lex_lt(b, a)
}

/// `common_len` stays within both sequences, the sequences agree below it,
/// and they differ at it wherever both go on.
pub proof fn lemma_common_len<T>(a: Seq<T>, b: Seq<T>)
    ensures
        common_len(a, b) <= a.len(),
        common_len(a, b) <= b.len(),
        forall|i: int| 0 <= i < common_len(a, b) ==> a[i] == b[i],
        common_len(a, b) < a.len() && common_len(a, b) < b.len() ==> a[common_len(a, b) as int]
            != b[common_len(a, b) as int],
    decreases a.len(),
{
    if a.len() > 0 && b.len() > 0 && a[0] == b[0] {
        let a1 = a.drop_first();
        let b1 = b.drop_first();
        lemma_common_len(a1, b1);
        assert forall|i: int| 0 <= i < common_len(a, b) implies a[i] == b[i] by {
            if i > 0 {
                assert(a1[i - 1] == b1[i - 1]);
            }
        }
        let n = common_len(a1, b1) as int;
        if n < a1.len() && n < b1.len() {
            assert(a1[n] != b1[n]);
        }
    }
}

/// Any position below which the sequences agree, and at which they differ or
/// one of them ends, is the common length.
pub proof fn lemma_common_len_is<T>(a: Seq<T>, b: Seq<T>, n: int)
    requires
        0 <= n <= a.len(),
        n <= b.len(),
        forall|i: int| 0 <= i < n ==> a[i] == b[i],
        n == a.len() || n == b.len() || a[n] != b[n],
    ensures
        common_len(a, b) == n,
    decreases a.len(),
{
    if n > 0 {
        let a1 = a.drop_first();
        let b1 = b.drop_first();
        assert(a[0] == b[0]);
        assert forall|i: int| 0 <= i < n - 1 implies a1[i] == b1[i] by {
            assert(a[i + 1] == b[i + 1]);
        }
        lemma_common_len_is(a1, b1, n - 1);
    }
}

/// The common length does not depend on the order of the arguments.
pub proof fn lemma_common_len_symmetric<T>(a: Seq<T>, b: Seq<T>)
    ensures
        common_len(a, b) == common_len(b, a),
{
    lemma_common_len(a, b);
    lemma_common_len_is(b, a, common_len(a, b) as int);
}

/// No byte string sorts before itself.
pub proof fn lemma_lex_irreflexive(a: Seq<u8>)
    ensures
        !lex_lt(a, a),
{
    lemma_common_len_is(a, a, a.len() as int);
}

/// Of two byte strings exactly one sorts first, unless they are equal.
pub proof fn lemma_lex_trichotomy(a: Seq<u8>, b: Seq<u8>)
    ensures
        lex_lt(a, b) || lex_lt(b, a) || a == b,
        !(lex_lt(a, b) && lex_lt(b, a)),
        a == b ==> !lex_lt(a, b) && !lex_lt(b, a),
        lex_le(a, b) <==> (lex_lt(a, b) || a == b),
{
    lemma_common_len(a, b);
    lemma_common_len_symmetric(a, b);
    lemma_lex_irreflexive(a);
    let n = common_len(a, b) as int;
    if n == a.len() && n == b.len() {
        assert(a =~= b);
    }
}

/// The order is transitive.
pub proof fn lemma_lex_transitive(a: Seq<u8>, b: Seq<u8>, c: Seq<u8>)
    requires
        lex_lt(a, b),
        lex_lt(b, c),
    ensures
        lex_lt(a, c),
{
    lemma_common_len(a, b);
    lemma_common_len(b, c);
    let i = common_len(a, b) as int;
    let j = common_len(b, c) as int;
    let n = if i <= j { i } else { j };
    lemma_common_len_is(a, c, n);
}

/// Transitivity with one weak step on the right.
pub proof fn lemma_lex_lt_le(a: Seq<u8>, b: Seq<u8>, c: Seq<u8>)
    requires
        lex_lt(a, b),
        lex_le(b, c),
    ensures
        lex_lt(a, c),
{
    lemma_lex_trichotomy(b, c);
    if b != c {
        lemma_lex_transitive(a, b, c);
    }
}

/// A prefix never sorts after a byte string that starts with it.
pub proof fn lemma_prefix_is_le(p: Seq<u8>, k: Seq<u8>)
    requires
        p.is_prefix_of(k),
    ensures
        lex_le(p, k),
{
    lemma_common_len_is(k, p, p.len() as int);
}

/// Whether `a` sorts strictly before `b`.
pub fn bytes_lt(a: &[u8], b: &[u8]) -> (r: bool)
    ensures
        r == lex_lt(a@, b@),
{
    let mut i: usize = 0;
    while i < a.len() && i < b.len() && a[i] == b[i]
        invariant
            i <= a.len(),
            i <= b.len(),
            forall|j: int| 0 <= j < i ==> a@[j] == b@[j],
        decreases a.len() - i,
    {
        i += 1;
    }
    proof {
        lemma_common_len_is(a@, b@, i as int);
    }
    i < b.len() && (i == a.len() || a[i] < b[i])
}

/// Whether `a` and `b` hold the same bytes.
pub fn bytes_eq(a: &[u8], b: &[u8]) -> (r: bool)
    ensures
        r == (a@ == b@),
{
    if a.len() != b.len() {
        return false;
    }
    let mut i: usize = 0;
    while i < a.len()
        invariant
            i <= a.len(),
            a.len() == b.len(),
            forall|j: int| 0 <= j < i ==> a@[j] == b@[j],
        decreases a.len() - i,
    {
        if a[i] != b[i] {
            return false;
        }
        i += 1;
    }
    assert(a@ =~= b@);
    true
}

/// Whether `key` starts with `prefix`.
pub fn starts_with(key: &[u8], prefix: &[u8]) -> (r: bool)
    ensures
        r == prefix@.is_prefix_of(key@),
{
    if prefix.len() > key.len() {
        return false;
    }
    let mut i: usize = 0;
    while i < prefix.len()
        invariant
            i <= prefix.len(),
            prefix.len() <= key.len(),
            forall|j: int| 0 <= j < i ==> prefix@[j] == key@[j],
        decreases prefix.len() - i,
    {
        if prefix[i] != key[i] {
            assert(prefix@[i as int] != key@.subrange(0, prefix@.len() as int)[i as int]);
            return false;
        }
        i += 1;
    }
    assert(prefix@ =~= key@.subrange(0, prefix@.len() as int));
    true
}

} // verus!
