//! The mathematical model of a database: a finite map from keys to values,
//! and its listing, the pairs of the map in ascending order of their keys.

use vstd::prelude::*;
use crate::order::{lemma_lex_irreflexive, lemma_lex_trichotomy, lex_lt};

verus! {

/// The keys of `pairs` ascend strictly: the list is sorted and holds no key twice.
pub open spec fn ascending(pairs: Seq<(Seq<u8>, Seq<u8>)>) -> bool {
    forall|i: int, j: int|
        0 <= i < j < pairs.len() ==> lex_lt((#[trigger] pairs[i]).0, (#[trigger] pairs[j]).0)
}

/// `pairs` lists `m`: it holds exactly the pairs of `m`, in ascending order
/// of their keys.
pub open spec fn is_listing(pairs: Seq<(Seq<u8>, Seq<u8>)>, m: Map<Seq<u8>, Seq<u8>>) -> bool {
    &&& ascending(pairs)
    &&& forall|i: int|
        0 <= i < pairs.len() ==> m.contains_key((#[trigger] pairs[i]).0) && m[pairs[i].0]
            == pairs[i].1
    &&& forall|k: Seq<u8>|
        m.contains_key(k) ==> exists|i: int| 0 <= i < pairs.len() && (#[trigger] pairs[i]).0 == k
}

/// The map that results when the pairs are inserted one after the other into
/// an empty map. Where a key occurs more than once, its last value stays.
pub open spec fn replay(pairs: Seq<(Seq<u8>, Seq<u8>)>) -> Map<Seq<u8>, Seq<u8>>
    decreases pairs.len(),
{
    if pairs.len() == 0 {
        Map::empty()
    } else {
        replay(pairs.drop_last()).insert(pairs.last().0, pairs.last().1)
    }
}

/// The part of `m` whose keys start with `prefix`.
pub open spec fn with_prefix(m: Map<Seq<u8>, Seq<u8>>, prefix: Seq<u8>) -> Map<Seq<u8>, Seq<u8>> {
    m.restrict(Set::new(|k: Seq<u8>| prefix.is_prefix_of(k)))
}

/// The part of `m` whose keys do not start with `prefix`.
pub open spec fn without_prefix(m: Map<Seq<u8>, Seq<u8>>, prefix: Seq<u8>) -> Map<
    Seq<u8>,
    Seq<u8>,
> {
    m.remove_keys(Set::new(|k: Seq<u8>| prefix.is_prefix_of(k)))
}

/// The keys of the first `n` pairs of `pairs`.
pub open spec fn first_keys(pairs: Seq<(Seq<u8>, Seq<u8>)>, n: int) -> Set<Seq<u8>> {
    Set::new(|k: Seq<u8>| exists|i: int| 0 <= i < n && i < pairs.len() && (#[trigger] pairs[i]).0 == k)
}

/// What a lookup of `k` in `m` gives.
pub open spec fn lookup(m: Map<Seq<u8>, Seq<u8>>, k: Seq<u8>) -> Option<Seq<u8>> {
    if m.contains_key(k) {
        Some(m[k])
    } else {
        None
    }
}

/// A listing without its last pair lists the map without that pair's key.
pub proof fn lemma_listing_drop_last(pairs: Seq<(Seq<u8>, Seq<u8>)>, m: Map<Seq<u8>, Seq<u8>>)
    requires
        is_listing(pairs, m),
        pairs.len() > 0,
    ensures
        is_listing(pairs.drop_last(), m.remove(pairs.last().0)),
{
    let rest = pairs.drop_last();
    let last = pairs.last();
    let m1 = m.remove(last.0);
    assert forall|i: int, j: int| 0 <= i < j < rest.len() implies lex_lt(
        (#[trigger] rest[i]).0,
        (#[trigger] rest[j]).0,
    ) by {
        assert(lex_lt(pairs[i].0, pairs[j].0));
    }
    assert forall|i: int| 0 <= i < rest.len() implies m1.contains_key((#[trigger] rest[i]).0)
        && m1[rest[i].0] == rest[i].1 by {
        assert(lex_lt(pairs[i].0, pairs[pairs.len() - 1].0));
        lemma_lex_irreflexive(last.0);
        assert(m.contains_key(pairs[i].0));
    }
    assert forall|k: Seq<u8>| m1.contains_key(k) implies exists|i: int|
        0 <= i < rest.len() && (#[trigger] rest[i]).0 == k by {
        let i = choose|i: int| 0 <= i < pairs.len() && (#[trigger] pairs[i]).0 == k;
        assert(rest[i].0 == k);
    }
}

/// A map has one listing only.
pub proof fn lemma_listing_unique(
    a: Seq<(Seq<u8>, Seq<u8>)>,
    b: Seq<(Seq<u8>, Seq<u8>)>,
    m: Map<Seq<u8>, Seq<u8>>,
)
    requires
        is_listing(a, m),
        is_listing(b, m),
    ensures
        a == b,
    decreases a.len(),
{
    if a.len() == 0 {
        if b.len() > 0 {
            assert(m.contains_key(b[0].0));
        }
        assert(a =~= b);
    } else {
        let ka = a.last().0;
        assert(m.contains_key(a[a.len() - 1].0));
        let j = choose|j: int| 0 <= j < b.len() && (#[trigger] b[j]).0 == ka;
        let kb = b.last().0;
        assert(m.contains_key(b[b.len() - 1].0));
        let i = choose|i: int| 0 <= i < a.len() && (#[trigger] a[i]).0 == kb;
        // Each last key occurs in the other list, so neither is the greater.
        lemma_lex_trichotomy(ka, kb);
        if j < b.len() - 1 {
            assert(lex_lt(b[j].0, b[b.len() - 1].0));
        }
        if i < a.len() - 1 {
            assert(lex_lt(a[i].0, a[a.len() - 1].0));
        }
        assert(ka == kb);
        lemma_listing_drop_last(a, m);
        lemma_listing_drop_last(b, m);
        lemma_listing_unique(a.drop_last(), b.drop_last(), m.remove(ka));
        assert(a.last() == b.last());
        assert(a =~= a.drop_last().push(a.last()));
        assert(b =~= b.drop_last().push(b.last()));
    }
}

/// Replaying the listing of a map gives the map back.
pub proof fn lemma_replay_listing(pairs: Seq<(Seq<u8>, Seq<u8>)>, m: Map<Seq<u8>, Seq<u8>>)
    requires
        is_listing(pairs, m),
    ensures
        replay(pairs) == m,
    decreases pairs.len(),
{
    if pairs.len() == 0 {
        assert(m =~= Map::empty());
    } else {
        let last = pairs.last();
        lemma_listing_drop_last(pairs, m);
        lemma_replay_listing(pairs.drop_last(), m.remove(last.0));
        assert(m.contains_key(pairs[pairs.len() - 1].0));
        assert(m.remove(last.0).insert(last.0, last.1) =~= m);
    }
}

/// A list whose keys ascend strictly is the listing of the map it replays to.
pub proof fn lemma_ascending_is_listing(pairs: Seq<(Seq<u8>, Seq<u8>)>)
    requires
        ascending(pairs),
    ensures
        is_listing(pairs, replay(pairs)),
    decreases pairs.len(),
{
    let m = replay(pairs);
    if pairs.len() > 0 {
        let rest = pairs.drop_last();
        let last = pairs.last();
        assert forall|i: int, j: int| 0 <= i < j < rest.len() implies lex_lt(
            (#[trigger] rest[i]).0,
            (#[trigger] rest[j]).0,
        ) by {
            assert(lex_lt(pairs[i].0, pairs[j].0));
        }
        lemma_ascending_is_listing(rest);
        let m0 = replay(rest);
        assert forall|i: int| 0 <= i < pairs.len() implies m.contains_key((#[trigger] pairs[i]).0)
            && m[pairs[i].0] == pairs[i].1 by {
            if i < rest.len() {
                assert(rest[i] == pairs[i]);
                assert(m0.contains_key(rest[i].0));
                assert(lex_lt(pairs[i].0, pairs[pairs.len() - 1].0));
                lemma_lex_irreflexive(last.0);
            }
        }
        assert forall|k: Seq<u8>| m.contains_key(k) implies exists|i: int|
            0 <= i < pairs.len() && (#[trigger] pairs[i]).0 == k by {
            if k == last.0 {
                assert(pairs[pairs.len() - 1].0 == k);
            } else {
                assert(m0.contains_key(k));
                let i = choose|i: int| 0 <= i < rest.len() && (#[trigger] rest[i]).0 == k;
                assert(pairs[i].0 == k);
            }
        }
    }
}

/// A key that is missing at the place where the order would have it is not
/// in the map.
pub proof fn lemma_listing_absent(
    pairs: Seq<(Seq<u8>, Seq<u8>)>,
    m: Map<Seq<u8>, Seq<u8>>,
    at: int,
    k: Seq<u8>,
)
    requires
        is_listing(pairs, m),
        0 <= at <= pairs.len(),
        forall|i: int| 0 <= i < at ==> lex_lt((#[trigger] pairs[i]).0, k),
        forall|i: int| at <= i < pairs.len() ==> lex_lt(k, (#[trigger] pairs[i]).0),
    ensures
        !m.contains_key(k),
{
    if m.contains_key(k) {
        let i = choose|i: int| 0 <= i < pairs.len() && (#[trigger] pairs[i]).0 == k;
        lemma_lex_irreflexive(k);
    }
}

/// Inserting a new pair at its place in the order gives the listing of the
/// map with that pair inserted.
pub proof fn lemma_listing_insert(
    pairs: Seq<(Seq<u8>, Seq<u8>)>,
    m: Map<Seq<u8>, Seq<u8>>,
    at: int,
    k: Seq<u8>,
    v: Seq<u8>,
)
    requires
        is_listing(pairs, m),
        0 <= at <= pairs.len(),
        forall|i: int| 0 <= i < at ==> lex_lt((#[trigger] pairs[i]).0, k),
        forall|i: int| at <= i < pairs.len() ==> lex_lt(k, (#[trigger] pairs[i]).0),
    ensures
        is_listing(pairs.insert(at, (k, v)), m.insert(k, v)),
{
    let out = pairs.insert(at, (k, v));
    let m1 = m.insert(k, v);
    lemma_listing_absent(pairs, m, at, k);
    assert forall|i: int, j: int| 0 <= i < j < out.len() implies lex_lt(
        (#[trigger] out[i]).0,
        (#[trigger] out[j]).0,
    ) by {
        if j < at {
            assert(out[i] == pairs[i] && out[j] == pairs[j]);
        } else if j == at {
            assert(out[i] == pairs[i]);
        } else if i < at {
            assert(out[i] == pairs[i] && out[j] == pairs[j - 1]);
        } else if i == at {
            assert(out[j] == pairs[j - 1]);
        } else {
            assert(out[i] == pairs[i - 1] && out[j] == pairs[j - 1]);
        }
    }
    assert forall|i: int| 0 <= i < out.len() implies m1.contains_key((#[trigger] out[i]).0)
        && m1[out[i].0] == out[i].1 by {
        if i < at {
            assert(out[i] == pairs[i]);
            assert(m.contains_key(pairs[i].0));
        } else if i > at {
            assert(out[i] == pairs[i - 1]);
            assert(m.contains_key(pairs[i - 1].0));
        }
    }
    assert forall|q: Seq<u8>| m1.contains_key(q) implies exists|i: int|
        0 <= i < out.len() && (#[trigger] out[i]).0 == q by {
        if q == k {
            assert(out[at].0 == q);
        } else {
            let i = choose|i: int| 0 <= i < pairs.len() && (#[trigger] pairs[i]).0 == q;
            if i < at {
                assert(out[i].0 == q);
            } else {
                assert(out[i + 1].0 == q);
            }
        }
    }
}

/// Replacing the value of a listed pair gives the listing of the map with
/// the new value under that key.
pub proof fn lemma_listing_update(
    pairs: Seq<(Seq<u8>, Seq<u8>)>,
    m: Map<Seq<u8>, Seq<u8>>,
    at: int,
    v: Seq<u8>,
)
    requires
        is_listing(pairs, m),
        0 <= at < pairs.len(),
    ensures
        is_listing(pairs.update(at, (pairs[at].0, v)), m.insert(pairs[at].0, v)),
{
    let k = pairs[at].0;
    let out = pairs.update(at, (k, v));
    let m1 = m.insert(k, v);
    assert forall|i: int, j: int| 0 <= i < j < out.len() implies lex_lt(
        (#[trigger] out[i]).0,
        (#[trigger] out[j]).0,
    ) by {
        assert(lex_lt(pairs[i].0, pairs[j].0));
    }
    assert forall|i: int| 0 <= i < out.len() implies m1.contains_key((#[trigger] out[i]).0)
        && m1[out[i].0] == out[i].1 by {
        if i != at {
            assert(out[i] == pairs[i]);
            assert(m.contains_key(pairs[i].0));
            if i < at {
                assert(lex_lt(pairs[i].0, pairs[at].0));
            } else {
                assert(lex_lt(pairs[at].0, pairs[i].0));
            }
            lemma_lex_irreflexive(k);
        }
    }
    assert forall|q: Seq<u8>| m1.contains_key(q) implies exists|i: int|
        0 <= i < out.len() && (#[trigger] out[i]).0 == q by {
        if q == k {
            assert(out[at].0 == q);
        } else {
            let i = choose|i: int| 0 <= i < pairs.len() && (#[trigger] pairs[i]).0 == q;
            assert(out[i].0 == q);
        }
    }
}

/// Taking a pair out of a listing gives the listing of the map without that
/// pair's key.
pub proof fn lemma_listing_remove(
    pairs: Seq<(Seq<u8>, Seq<u8>)>,
    m: Map<Seq<u8>, Seq<u8>>,
    at: int,
)
    requires
        is_listing(pairs, m),
        0 <= at < pairs.len(),
    ensures
        is_listing(pairs.remove(at), m.remove(pairs[at].0)),
{
    let k = pairs[at].0;
    let out = pairs.remove(at);
    let m1 = m.remove(k);
    assert forall|i: int, j: int| 0 <= i < j < out.len() implies lex_lt(
        (#[trigger] out[i]).0,
        (#[trigger] out[j]).0,
    ) by {
        let i0 = if i < at { i } else { i + 1 };
        let j0 = if j < at { j } else { j + 1 };
        assert(out[i] == pairs[i0] && out[j] == pairs[j0]);
        assert(lex_lt(pairs[i0].0, pairs[j0].0));
    }
    assert forall|i: int| 0 <= i < out.len() implies m1.contains_key((#[trigger] out[i]).0)
        && m1[out[i].0] == out[i].1 by {
        let i0 = if i < at { i } else { i + 1 };
        assert(out[i] == pairs[i0]);
        assert(m.contains_key(pairs[i0].0));
        if i0 < at {
            assert(lex_lt(pairs[i0].0, pairs[at].0));
        } else {
            assert(lex_lt(pairs[at].0, pairs[i0].0));
        }
        lemma_lex_irreflexive(k);
    }
    assert forall|q: Seq<u8>| m1.contains_key(q) implies exists|i: int|
        0 <= i < out.len() && (#[trigger] out[i]).0 == q by {
        let i = choose|i: int| 0 <= i < pairs.len() && (#[trigger] pairs[i]).0 == q;
        if i < at {
            assert(out[i].0 == q);
        } else {
            assert(out[i - 1].0 == q);
        }
    }
}

/// The stretch of a listing that holds exactly the pairs whose keys start
/// with `prefix` lists the part of the map under that prefix.
pub proof fn lemma_listing_stretch(
    pairs: Seq<(Seq<u8>, Seq<u8>)>,
    m: Map<Seq<u8>, Seq<u8>>,
    from: int,
    to: int,
    prefix: Seq<u8>,
)
    requires
        is_listing(pairs, m),
        0 <= from <= to <= pairs.len(),
        forall|i: int|
            0 <= i < pairs.len() ==> (prefix.is_prefix_of((#[trigger] pairs[i]).0) <==> from <= i
                < to),
    ensures
        is_listing(pairs.subrange(from, to), with_prefix(m, prefix)),
{
    let out = pairs.subrange(from, to);
    let m1 = with_prefix(m, prefix);
    assert forall|i: int, j: int| 0 <= i < j < out.len() implies lex_lt(
        (#[trigger] out[i]).0,
        (#[trigger] out[j]).0,
    ) by {
        assert(lex_lt(pairs[from + i].0, pairs[from + j].0));
    }
    assert forall|i: int| 0 <= i < out.len() implies m1.contains_key((#[trigger] out[i]).0)
        && m1[out[i].0] == out[i].1 by {
        assert(out[i] == pairs[from + i]);
        assert(m.contains_key(pairs[from + i].0));
    }
    assert forall|q: Seq<u8>| m1.contains_key(q) implies exists|i: int|
        0 <= i < out.len() && (#[trigger] out[i]).0 == q by {
        let i = choose|i: int| 0 <= i < pairs.len() && (#[trigger] pairs[i]).0 == q;
        assert(out[i - from].0 == q);
    }
}

/// Taking the keys of a listing out of a map one after the other: one more
/// step.
pub proof fn lemma_remove_next_key(
    m: Map<Seq<u8>, Seq<u8>>,
    pairs: Seq<(Seq<u8>, Seq<u8>)>,
    n: int,
)
    requires
        0 <= n < pairs.len(),
    ensures
        m.remove_keys(first_keys(pairs, n)).remove(pairs[n].0) == m.remove_keys(
            first_keys(pairs, n + 1),
        ),
{
    let a = m.remove_keys(first_keys(pairs, n)).remove(pairs[n].0);
    let b = m.remove_keys(first_keys(pairs, n + 1));
    assert forall|k: Seq<u8>| first_keys(pairs, n + 1).contains(k) <==> (first_keys(
        pairs,
        n,
    ).contains(k) || k == pairs[n].0) by {
        if first_keys(pairs, n).contains(k) {
            let i = choose|i: int| 0 <= i < n && i < pairs.len() && (#[trigger] pairs[i]).0 == k;
            assert(0 <= i < n + 1 && pairs[i].0 == k);
        }
        if k == pairs[n].0 {
            assert(0 <= n < n + 1 && pairs[n].0 == k);
        }
    }
    assert(a =~= b);
}

/// Taking all the keys of the listing of the part under `prefix` out of a
/// map leaves the part that is not under `prefix`.
pub proof fn lemma_remove_listed_keys(
    m: Map<Seq<u8>, Seq<u8>>,
    pairs: Seq<(Seq<u8>, Seq<u8>)>,
    prefix: Seq<u8>,
)
    requires
        is_listing(pairs, with_prefix(m, prefix)),
    ensures
        m.remove_keys(first_keys(pairs, pairs.len() as int)) == without_prefix(m, prefix),
{
    let keys = first_keys(pairs, pairs.len() as int);
    let part = with_prefix(m, prefix);
    assert forall|k: Seq<u8>| m.contains_key(k) implies (keys.contains(k) <==> prefix.is_prefix_of(
        k,
    )) by {
        if keys.contains(k) {
            let i = choose|i: int|
                0 <= i < pairs.len() && i < pairs.len() && (#[trigger] pairs[i]).0 == k;
            assert(part.contains_key(pairs[i].0));
        }
        if prefix.is_prefix_of(k) {
            assert(part.contains_key(k));
            let i = choose|i: int| 0 <= i < pairs.len() && (#[trigger] pairs[i]).0 == k;
            assert(0 <= i < pairs.len() && pairs[i].0 == k);
        }
    }
    assert(m.remove_keys(keys) =~= without_prefix(m, prefix));
}

/// A value that was put under a key is what a lookup of that key then
/// gives, whatever the map held before.
pub proof fn lemma_insert_then_get(m: Map<Seq<u8>, Seq<u8>>, k: Seq<u8>, v: Seq<u8>)
    ensures
        lookup(m.insert(k, v), k) == Some(v),
{
}

/// Removing a key that is not there finds nothing and leaves the map as it
/// is; so does removing it once more.
pub proof fn lemma_remove_absent(m: Map<Seq<u8>, Seq<u8>>, k: Seq<u8>)
    requires
        !m.contains_key(k),
    ensures
        lookup(m, k) is None,
        m.remove(k) == m,
        m.remove(k).remove(k) == m,
{
    assert(m.remove(k) =~= m);
}

/// A write that was committed is there after the database is opened anew:
/// where the snapshot lists a map that holds `v` under `k`, replaying the
/// snapshot gives a map that holds `v` under `k`.
pub proof fn lemma_committed_write_survives(
    snapshot: Seq<(Seq<u8>, Seq<u8>)>,
    m: Map<Seq<u8>, Seq<u8>>,
    k: Seq<u8>,
    v: Seq<u8>,
)
    requires
        is_listing(snapshot, m.insert(k, v)),
    ensures
        replay(snapshot) == m.insert(k, v),
        lookup(replay(snapshot), k) == Some(v),
{
    lemma_replay_listing(snapshot, m.insert(k, v));
}

} // verus!
