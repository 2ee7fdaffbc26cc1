//! What the backend on a transactional object store of text computes.
//!
//! That store keeps text under text keys and answers range queries in the
//! order of the keys. Keys and values are kept there as hexadecimal text. A
//! prefix scan becomes one range query; what comes back is read into bytes
//! again. The calls to the object store itself are not made here.

use vstd::prelude::*;
use crate::db::{entries_reversed, pairs_of};
use crate::error::StoreError;
use crate::hex::{
    hex_decode, hex_encode, hex_text, is_hex_text, lemma_hex_keeps_order, lemma_hex_round_trip,
    text_le, text_lt, unhex,
};
use crate::model::{is_listing, with_prefix};
use crate::order::lex_lt;
use crate::prefix::{
    lemma_next_prefix_exact, lemma_next_prefix_unbounded, next_prefix, next_prefix_spec,
};

verus! {

/// A range of stored keys: every key from `lower` on that sorts strictly
/// before `upper`. Without an `upper` the range has no end.
pub struct KeyRange {
    /// The first key of the range; it belongs to the range.
    pub lower: String,
    /// The end of the range, which does not belong to it.
    pub upper: Option<String>,
}

impl KeyRange {
    /// Whether the stored key `text` lies in the range.
    pub open spec fn holds(self, text: Seq<char>) -> bool {
        text_le(self.lower@, text) && match self.upper {
            Some(end) => text_lt(text, end@),
            None => true,
        }
    }

    /// Whether this is the range that a scan for `prefix` asks for: from the
    /// text of the prefix up to the text of the prefix's bound, and without
    /// an end where the prefix has no bound.
    pub open spec fn is_for(self, prefix: Seq<u8>) -> bool {
        &&& self.lower@ == hex_text(prefix)
        &&& match self.upper {
            Some(end) => next_prefix_spec(prefix) is Some && end@ == hex_text(
                next_prefix_spec(prefix).unwrap(),
            ),
            None => next_prefix_spec(prefix) is None,
        }
    }
}

/// The range of stored keys that holds exactly the keys starting with
/// `prefix`.
pub fn prefix_range(prefix: &[u8]) -> (range: KeyRange)
    ensures
        range.is_for(prefix@),
{
    let lower = hex_encode(prefix);
    let upper = match next_prefix(prefix) {
        Some(bound) => Some(hex_encode(bound.as_slice())),
        None => None,
    };
    KeyRange { lower, upper }
}

/// The range for a prefix holds the stored form of a key exactly when the key
/// starts with the prefix.
pub proof fn lemma_prefix_range_exact(range: KeyRange, prefix: Seq<u8>, key: Seq<u8>)
    requires
        range.is_for(prefix),
    ensures
        range.holds(hex_text(key)) <==> prefix.is_prefix_of(key),
{
    lemma_hex_keeps_order(key, prefix);
    if next_prefix_spec(prefix) is Some {
        lemma_hex_keeps_order(key, next_prefix_spec(prefix).unwrap());
        lemma_next_prefix_exact(prefix, key);
    } else {
        lemma_next_prefix_unbounded(prefix, key);
    }
}

/// The texts that a vector of stored entries holds.
pub open spec fn texts_of(raw: Vec<(String, String)>) -> Seq<(Seq<char>, Seq<char>)> {
    Seq::new(raw@.len(), |i: int| (raw@[i].0@, raw@[i].1@))
}

/// Every key and every value of `raw` is hexadecimal text.
pub open spec fn all_hex(raw: Seq<(Seq<char>, Seq<char>)>) -> bool {
    forall|i: int|
        0 <= i < raw.len() ==> is_hex_text((#[trigger] raw[i]).0) && is_hex_text(raw[i].1)
}

/// The pairs of byte strings that stored entries stand for.
pub open spec fn decoded(raw: Seq<(Seq<char>, Seq<char>)>) -> Seq<(Seq<u8>, Seq<u8>)> {
    Seq::new(raw.len(), |i: int| (unhex(raw[i].0), unhex(raw[i].1)))
}

/// `raw` is what the object store answers to the range query for `prefix`
/// when it holds the map `m` in stored form: the stored entries of `m` whose
/// keys lie in the range, in ascending order of the stored keys.
pub open spec fn is_range_answer(
    raw: Seq<(Seq<char>, Seq<char>)>,
    m: Map<Seq<u8>, Seq<u8>>,
    range: KeyRange,
) -> bool {
    &&& forall|i: int, j: int|
        0 <= i < j < raw.len() ==> text_lt((#[trigger] raw[i]).0, (#[trigger] raw[j]).0)
    &&& forall|i: int|
        0 <= i < raw.len() ==> range.holds((#[trigger] raw[i]).0) && exists|k: Seq<u8>|
            #![trigger hex_text(k)]
            m.contains_key(k) && raw[i] == (hex_text(k), hex_text(m[k]))
    &&& forall|k: Seq<u8>|
        m.contains_key(k) && range.holds(#[trigger] hex_text(k)) ==> exists|i: int|
            0 <= i < raw.len() && (#[trigger] raw[i]).0 == hex_text(k)
}

/// A prefix scan through the object store finds exactly what it should: the
/// answer to the range query for `prefix`, read back into bytes, is the
/// listing of the part of the map under `prefix`.
pub proof fn lemma_range_answer_is_listing(
    raw: Seq<(Seq<char>, Seq<char>)>,
    m: Map<Seq<u8>, Seq<u8>>,
    range: KeyRange,
    prefix: Seq<u8>,
)
    requires
        range.is_for(prefix),
        is_range_answer(raw, m, range),
    ensures
        all_hex(raw),
        is_listing(decoded(raw), with_prefix(m, prefix)),
{
    let out = decoded(raw);
    let part = with_prefix(m, prefix);
    assert forall|i: int| 0 <= i < raw.len() implies is_hex_text((#[trigger] raw[i]).0)
        && is_hex_text(raw[i].1) && m.contains_key(out[i].0) && m[out[i].0] == out[i].1
        && raw[i].0 == hex_text(out[i].0) && prefix.is_prefix_of(out[i].0) by {
        let k = choose|k: Seq<u8>|
            #![trigger hex_text(k)]
            m.contains_key(k) && raw[i] == (hex_text(k), hex_text(m[k]));
        lemma_hex_round_trip(k);
        lemma_hex_round_trip(m[k]);
        lemma_prefix_range_exact(range, prefix, k);
    }
    assert forall|i: int, j: int| 0 <= i < j < out.len() implies lex_lt(
        (#[trigger] out[i]).0,
        (#[trigger] out[j]).0,
    ) by {
        assert(text_lt(raw[i].0, raw[j].0));
        lemma_hex_keeps_order(out[i].0, out[j].0);
    }
    assert forall|i: int| 0 <= i < out.len() implies part.contains_key((#[trigger] out[i]).0)
        && part[out[i].0] == out[i].1 by {
        assert(is_hex_text(raw[i].0));
    }
    assert forall|k: Seq<u8>| part.contains_key(k) implies exists|i: int|
        0 <= i < out.len() && (#[trigger] out[i]).0 == k by {
        lemma_prefix_range_exact(range, prefix, k);
        assert(range.holds(hex_text(k)));
        let i = choose|i: int| 0 <= i < raw.len() && (#[trigger] raw[i]).0 == hex_text(k);
        lemma_hex_round_trip(k);
        assert(out[i].0 == k);
    }
}

/// Reads a stored value back into bytes. A value that is not hexadecimal
/// text was not written by this store and is reported as corrupt.
pub fn decode_value(stored: Option<&str>) -> (r: Result<Option<Vec<u8>>, StoreError>)
    ensures
        match stored {
            None => r matches Ok(None),
            Some(text) => if is_hex_text(text@) {
                r matches Ok(Some(bytes)) && bytes@ == unhex(text@)
            } else {
                r matches Err(StoreError::CorruptEntry)
            },
        },
{
    match stored {
        None => Ok(None),
        Some(text) => match hex_decode(text) {
            Some(bytes) => Ok(Some(bytes)),
            None => Err(StoreError::CorruptEntry),
        },
    }
}

/// Reads the answer to a range query back into pairs of byte strings, in the
/// order of the answer. If any key or value is not hexadecimal text, the
/// whole answer is reported as corrupt.
pub fn decode_entries(raw: &Vec<(String, String)>) -> (r: Result<
    Vec<(Vec<u8>, Vec<u8>)>,
    StoreError,
>)
    ensures
        match r {
            Ok(entries) => all_hex(texts_of(*raw)) && pairs_of(entries) == decoded(
                texts_of(*raw),
            ),
            Err(e) => e == StoreError::CorruptEntry && !all_hex(texts_of(*raw)),
        },
{
    let ghost texts = texts_of(*raw);
    let mut entries: Vec<(Vec<u8>, Vec<u8>)> = Vec::new();
    let mut i: usize = 0;
    while i < raw.len()
        invariant
            i <= raw.len(),
            texts == texts_of(*raw),
            all_hex(texts.take(i as int)),
            pairs_of(entries) == decoded(texts.take(i as int)),
        decreases raw.len() - i,
    {
        let ghost before = pairs_of(entries);
        assert(texts[i as int] == (raw@[i as int].0@, raw@[i as int].1@));
        let key = match hex_decode(raw[i].0.as_str()) {
            Some(bytes) => bytes,
            None => {
                return Err(StoreError::CorruptEntry);
            },
        };
        let value = match hex_decode(raw[i].1.as_str()) {
            Some(bytes) => bytes,
            None => {
                return Err(StoreError::CorruptEntry);
            },
        };
        entries.push((key, value));
        i += 1;
        proof {
            let upto = texts.take(i as int);
            assert forall|j: int| 0 <= j < upto.len() implies is_hex_text((#[trigger] upto[j]).0)
                && is_hex_text(upto[j].1) by {
                if j < i - 1 {
                    assert(texts.take(i - 1)[j] == upto[j]);
                }
            }
            assert(pairs_of(entries) =~= before.push(
                (unhex(texts[i - 1].0), unhex(texts[i - 1].1)),
            ));
            assert forall|j: int| 0 <= j < upto.len() implies pairs_of(entries)[j] == decoded(
                upto,
            )[j] by {
                if j < i - 1 {
                    assert(before[j] == decoded(texts.take(i - 1))[j]);
                    assert(texts.take(i - 1)[j] == upto[j]);
                }
            }
            assert(pairs_of(entries) =~= decoded(upto));
        }
    }
    assert(texts.take(i as int) =~= texts);
    Ok(entries)
}

/// Reads the answer to a range query back into pairs of byte strings, the
/// last entry of the answer first. A scan in descending order asks the same
/// range query as one in ascending order and turns the answer round.
pub fn decode_entries_descending(raw: &Vec<(String, String)>) -> (r: Result<
    Vec<(Vec<u8>, Vec<u8>)>,
    StoreError,
>)
    ensures
        match r {
            Ok(entries) => all_hex(texts_of(*raw)) && pairs_of(entries) == decoded(
                texts_of(*raw),
            ).reverse(),
            Err(e) => e == StoreError::CorruptEntry && !all_hex(texts_of(*raw)),
        },
{
    match decode_entries(raw) {
        Ok(entries) => Ok(entries_reversed(&entries)),
        Err(e) => Err(e),
    }
}

/// Where a transaction on the object store stands.
#[derive(Debug, Clone, Copy, PartialEq, Eq, Structural)]
pub enum Phase {
    /// Begun and not yet committed: it may be read, written and committed.
    Open,
    /// Committed: it may not be used any more.
    Committed,
}

/// What is owed to the object store when a transaction handle goes away.
#[derive(Debug, Clone, Copy, PartialEq, Eq, Structural)]
pub enum Cleanup {
    /// The transaction was never committed: it is to be aborted, so that the
    /// object store lets go of it and none of its writes stay.
    Abort,
    /// The transaction was committed: nothing is left to do.
    Nothing,
}

impl Phase {
    /// The phase of a transaction that has just begun.
    pub fn begin() -> (phase: Phase)
        ensures
            phase == Phase::Open,
    {
        Phase::Open
    }

    /// Whether an operation may run: only an open transaction may be used.
    pub fn check_open(self) -> (r: Result<(), StoreError>)
        ensures
            self == Phase::Open ==> r is Ok,
            self == Phase::Committed ==> r == Err::<(), StoreError>(
                StoreError::TransactionFinished,
            ),
    {
        match self {
            Phase::Open => Ok(()),
            Phase::Committed => Err(StoreError::TransactionFinished),
        }
    }

    /// The phase after a commit. Only an open transaction can be committed,
    /// and only once.
    pub fn commit(self) -> (r: Result<Phase, StoreError>)
        ensures
            self == Phase::Open ==> r == Ok::<Phase, StoreError>(Phase::Committed),
            self == Phase::Committed ==> r == Err::<Phase, StoreError>(
                StoreError::TransactionFinished,
            ),
    {
        match self {
            Phase::Open => Ok(Phase::Committed),
            Phase::Committed => Err(StoreError::TransactionFinished),
        }
    }

    /// What is owed when the handle is dropped in this phase.
    pub fn on_drop(self) -> (cleanup: Cleanup)
        ensures
            cleanup == Cleanup::Abort <==> self == Phase::Open,
            cleanup == Cleanup::Nothing <==> self == Phase::Committed,
    {
        match self {
            Phase::Open => Cleanup::Abort,
            Phase::Committed => Cleanup::Nothing,
        }
    }
}

} // verus!
