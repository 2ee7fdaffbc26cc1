//! Prefix arithmetic: the exclusive upper bound of a prefix scan.
//!
//! The keys that start with a prefix `p` form one interval of the key order.
//! It begins at `p` itself. `next_prefix` gives the byte string at which it
//! ends, or reports that it runs to the end of the keyspace.

use vstd::prelude::*;
use crate::order::{
    common_len, lemma_common_len, lemma_common_len_is, lemma_lex_trichotomy, lemma_prefix_is_le,
    lex_le, lex_lt,
};

verus! {

/// Number of `0xFF` bytes at the end of `p`.
pub open spec fn trailing_max(p: Seq<u8>) -> nat
    decreases p.len(),
{
    if p.len() > 0 && p.last() == 0xFF {
        1 + trailing_max(p.drop_last())
    } else {
        0
    }
}

/// The bound of the keys that start with `p`: `p` without its trailing `0xFF`
/// bytes and with its last remaining byte raised by one. There is none when
/// nothing remains, that is when `p` is empty or holds `0xFF` bytes only.
pub open spec fn next_prefix_spec(p: Seq<u8>) -> Option<Seq<u8>> {
    let n = p.len() - trailing_max(p);
    if n <= 0 {
        None
    } else {
        Some(p.subrange(0, n - 1).push((p[n - 1] + 1) as u8))
    }
}

/// `trailing_max` counts exactly the `0xFF` bytes after the last other byte.
pub proof fn lemma_trailing_max(p: Seq<u8>)
    ensures
        trailing_max(p) <= p.len(),
        forall|i: int| p.len() - trailing_max(p) <= i < p.len() ==> p[i] == 0xFF,
        trailing_max(p) < p.len() ==> p[p.len() - trailing_max(p) - 1] != 0xFF,
    decreases p.len(),
{
    if p.len() > 0 && p.last() == 0xFF {
        let q = p.drop_last();
        lemma_trailing_max(q);
        assert forall|i: int| p.len() - trailing_max(p) <= i < p.len() implies p[i] == 0xFF by {
            if i < q.len() {
                assert(q[i] == 0xFF);
            }
        }
        if trailing_max(p) < p.len() {
            assert(q[q.len() - trailing_max(q) - 1] != 0xFF);
        }
    }
}

/// If every byte of `p` from position `n` on is `0xFF`, and the byte before
/// position `n` is not, then `p` ends in `p.len() - n` bytes `0xFF`.
pub proof fn lemma_trailing_max_is(p: Seq<u8>, n: int)
    requires
        0 <= n <= p.len(),
        forall|i: int| n <= i < p.len() ==> p[i] == 0xFF,
        n > 0 ==> p[n - 1] != 0xFF,
    ensures
        trailing_max(p) == p.len() - n,
    decreases p.len(),
{
    if n < p.len() {
        let q = p.drop_last();
        assert(p.last() == 0xFF);
        assert forall|i: int| n <= i < q.len() implies q[i] == 0xFF by {
            assert(p[i] == 0xFF);
        }
        lemma_trailing_max_is(q, n);
    }
}

/// A prefix has no bound exactly when all its bytes are `0xFF`; the empty
/// prefix is among these.
pub proof fn lemma_no_bound_iff_all_max(p: Seq<u8>)
    ensures
        next_prefix_spec(p) is None <==> (forall|i: int| 0 <= i < p.len() ==> p[i] == 0xFF),
{
    lemma_trailing_max(p);
    if forall|i: int| 0 <= i < p.len() ==> p[i] == 0xFF {
        lemma_trailing_max_is(p, 0);
    }
}

/// The keys that start with `p` are exactly the keys from `p` up to, and not
/// including, the bound of `p`.
pub proof fn lemma_next_prefix_exact(p: Seq<u8>, k: Seq<u8>)
    requires
        next_prefix_spec(p) is Some,
    ensures
        p.is_prefix_of(k) <==> (lex_le(p, k) && lex_lt(k, next_prefix_spec(p).unwrap())),
{
    lemma_trailing_max(p);
    let n = p.len() - trailing_max(p);
    let b = next_prefix_spec(p).unwrap();
    assert(b.len() == n);
    assert(p[n - 1] < 0xFF);
    assert(b[n - 1] == p[n - 1] + 1);
    assert forall|i: int| 0 <= i < n - 1 implies b[i] == p[i] by {}
    if p.is_prefix_of(k) {
        lemma_prefix_is_le(p, k);
        assert forall|i: int| 0 <= i < p.len() implies k[i] == p[i] by {
            assert(k.subrange(0, p.len() as int)[i] == p[i]);
        }
        lemma_common_len_is(k, b, n - 1);
    } else if lex_le(p, k) {
        lemma_common_len(k, p);
        let m = common_len(k, p) as int;
        if m == p.len() {
            assert(p =~= k.subrange(0, p.len() as int));
        }
        assert(m < p.len());
        assert(m < k.len() && k[m] > p[m]);
        assert(m <= n - 1);
        if m < n - 1 {
            lemma_common_len_is(k, b, m);
        } else if k[m] == b[m] {
            lemma_common_len_is(k, b, n);
        } else {
            lemma_common_len_is(k, b, m);
        }
    }
}

/// Where `p` has no bound, the keys that start with `p` are all the keys from
/// `p` on: the scan runs to the end of the keyspace.
pub proof fn lemma_next_prefix_unbounded(p: Seq<u8>, k: Seq<u8>)
    requires
        next_prefix_spec(p) is None,
    ensures
        p.is_prefix_of(k) <==> lex_le(p, k),
{
    lemma_trailing_max(p);
    if p.is_prefix_of(k) {
        lemma_prefix_is_le(p, k);
    } else if lex_le(p, k) {
        lemma_common_len(k, p);
        let m = common_len(k, p) as int;
        if m == p.len() {
            assert(p =~= k.subrange(0, p.len() as int));
        }
        assert(p[m] == 0xFF);
    }
}

/// A prefix with a byte below `0xFF` has a bound, the bound sorts after the
/// prefix, and no key that starts with the prefix reaches it.
pub proof fn lemma_next_prefix_above(p: Seq<u8>, k: Seq<u8>)
    requires
        exists|i: int| 0 <= i < p.len() && p[i] < 0xFF,
    ensures
        next_prefix_spec(p) is Some,
        lex_lt(p, next_prefix_spec(p).unwrap()),
        p.is_prefix_of(k) ==> !lex_le(next_prefix_spec(p).unwrap(), k),
{
    lemma_no_bound_iff_all_max(p);
    lemma_next_prefix_exact(p, p);
    lemma_next_prefix_exact(p, k);
    assert(p.is_prefix_of(p)) by {
        assert(p =~= p.subrange(0, p.len() as int));
    }
}

/// The bound is the least byte string that sorts after every key starting
/// with `p`.
pub proof fn lemma_next_prefix_least(p: Seq<u8>, q: Seq<u8>)
    requires
        next_prefix_spec(p) is Some,
        forall|k: Seq<u8>| p.is_prefix_of(k) ==> lex_lt(k, q),
    ensures
        lex_le(next_prefix_spec(p).unwrap(), q),
{
    let b = next_prefix_spec(p).unwrap();
    assert(p.is_prefix_of(p)) by {
        assert(p =~= p.subrange(0, p.len() as int));
    }
    assert(lex_lt(p, q));
    lemma_lex_trichotomy(p, q);
    lemma_lex_trichotomy(q, q);
    if lex_lt(q, b) {
        lemma_next_prefix_exact(p, q);
        assert(p.is_prefix_of(q));
        assert(lex_lt(q, q));
    }
}

/// The exclusive upper bound of the keys that start with `prefix`, or `None`
/// where these keys run to the end of the keyspace.
pub fn next_prefix(prefix: &[u8]) -> (r: Option<Vec<u8>>)
    ensures
        match r {
            Some(b) => next_prefix_spec(prefix@) == Some(b@),
            None => next_prefix_spec(prefix@) is None,
        },
{
    let mut n: usize = prefix.len();
    while n > 0 && prefix[n - 1] == 0xFF
        invariant
            n <= prefix.len(),
            forall|i: int| n <= i < prefix.len() ==> prefix@[i] == 0xFF,
        decreases n,
    {
        n -= 1;
    }
    proof {
        lemma_trailing_max_is(prefix@, n as int);
    }
    if n == 0 {
        return None;
    }
    let mut bound: Vec<u8> = Vec::new();
    let mut i: usize = 0;
    while i < n - 1
        invariant
            0 < n <= prefix.len(),
            i <= n - 1,
            bound@ == prefix@.subrange(0, i as int),
        decreases n - i,
    {
        bound.push(prefix[i]);
        i += 1;
        assert(bound@ =~= prefix@.subrange(0, i as int));
    }
    bound.push(prefix[n - 1] + 1);
    Some(bound)
}

} // verus!
