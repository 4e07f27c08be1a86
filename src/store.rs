//! Checkpoints: the flag index and frontier snapshots as flexbuffers of
//! (m, n, value) triples.
use crate::flags::{triple_keys, FlagIndex};
use crate::frontier::{assoc_map, keyed, triple_seq, Frontier};
use num_bigint::BigUint;
use vstd::prelude::*;

verus! {

#[verifier::external_type_specification]
#[verifier::external_body]
pub struct ExSerializationError(flexbuffers::SerializationError);

#[verifier::external_type_specification]
#[verifier::external_body]
pub struct ExDeserializationError(flexbuffers::DeserializationError);

/// The flexbuffer encoding of a sequence of (m, n, flag) triples.
pub uninterp spec fn flex_flags(s: Seq<(usize, usize, bool)>) -> Seq<u8>;

/// The flexbuffer encoding of a sequence of (m, n, vector) triples, each
/// vector given by its numbers.
pub uninterp spec fn flex_frontier(s: Seq<(usize, usize, Seq<nat>)>) -> Seq<u8>;

/// Why a flag index could not be read back.
#[derive(Clone, Copy, Debug, PartialEq, Eq, Structural)]
pub enum StoreError {
    /// A triple names a column usize::MAX, which no computed entry has.
    KeyOutOfRange,
}

/// Relies on `flexbuffers::to_vec`: integers, bools, tuples and sequences
/// always serialise, and the bytes are the encoding of the triples.
#[verifier::external_body]
fn encode_flags(t: &Vec<(usize, usize, bool)>) -> (r: Result<Vec<u8>, flexbuffers::SerializationError>)
    ensures
        r is Ok,
        r matches Ok(b) ==> b@ == flex_flags(t@),
{
    flexbuffers::to_vec(t)
}

/// Relies on `flexbuffers::to_vec`: as for flags; a `BigUint` is written as
/// its normalised base-2^32 digits, so the bytes depend on the numbers alone.
#[verifier::external_body]
fn encode_frontier(t: &Vec<(usize, usize, Vec<BigUint>)>) -> (r: Result<
    Vec<u8>,
    flexbuffers::SerializationError,
>)
    ensures
        r is Ok,
        r matches Ok(b) ==> b@ == flex_frontier(triple_seq(t@)),
{
    flexbuffers::to_vec(t)
}

/// Relies on `flexbuffers::from_slice`: the encoding of triples reads back
/// as those triples. Only such bytes are accepted: on others the reader may
/// panic.
#[verifier::external_body]
fn decode_flags(b: &[u8]) -> (r: Result<Vec<(usize, usize, bool)>, flexbuffers::DeserializationError>)
    requires
        exists|t: Seq<(usize, usize, bool)>| b@ == flex_flags(t),
    ensures
        forall|t: Seq<(usize, usize, bool)>|
            b@ == #[trigger] flex_flags(t) ==> r is Ok && r->Ok_0@ == t,
{
    flexbuffers::from_slice(b)
}

/// Relies on `flexbuffers::from_slice`: the encoding of triples reads back
/// as triples with the same numbers. Only such bytes are accepted: on others
/// the reader may panic.
#[verifier::external_body]
fn decode_frontier(b: &[u8]) -> (r: Result<
    Vec<(usize, usize, Vec<BigUint>)>,
    flexbuffers::DeserializationError,
>)
    requires
        exists|t: Seq<(usize, usize, Seq<nat>)>| b@ == flex_frontier(t),
    ensures
        forall|t: Seq<(usize, usize, Seq<nat>)>|
            b@ == #[trigger] flex_frontier(t) ==> r is Ok && triple_seq(r->Ok_0@) == t,
{
    flexbuffers::from_slice(b)
}

/// The flag index as the bytes of its checkpoint file: each recorded key
/// once, with the value true.
pub fn save_flags(f: &FlagIndex) -> (r: Vec<u8>)
    ensures
        exists|t: Seq<(usize, usize, bool)>|
            {
                &&& r@ == flex_flags(t)
                &&& triple_keys(t) == f@
                &&& forall|j: int| 0 <= j < t.len() ==> (#[trigger] t[j]).2 && t[j].1 < usize::MAX
                &&& forall|i: int, j: int| 0 <= i < j < t.len() ==> (t[i].0, t[i].1) != (t[j].0, t[j].1)
            },
{
    let t = f.to_triples();
    match encode_flags(&t) {
        Ok(b) => b,
        Err(_) => Vec::new(),
    }
}

/// The flag index read back from the bytes of its checkpoint file.
pub fn load_flags(b: &[u8]) -> (r: Result<FlagIndex, StoreError>)
    requires
        exists|t: Seq<(usize, usize, bool)>| b@ == flex_flags(t),
    ensures
        forall|t: Seq<(usize, usize, bool)>|
            b@ == #[trigger] flex_flags(t) ==> {
                &&& r is Ok <==> forall|j: int| 0 <= j < t.len() ==> (#[trigger] t[j]).1 < usize::MAX
                &&& r matches Ok(f) ==> f@ == triple_keys(t)
            },
{
    match decode_flags(b) {
        Ok(t) => match FlagIndex::from_triples(&t) {
            Some(f) => Ok(f),
            None => Err(StoreError::KeyOutOfRange),
        },
        Err(_) => Err(StoreError::KeyOutOfRange),
    }
}

/// Loading what was saved gives the same flag index back.
pub fn reload_flags(f: &FlagIndex) -> (r: FlagIndex)
    ensures
        r@ == f@,
{
    let b = save_flags(f);
    let ghost t = choose|t: Seq<(usize, usize, bool)>|
        {
            &&& b@ == flex_flags(t)
            &&& triple_keys(t) == f@
            &&& forall|j: int| 0 <= j < t.len() ==> (#[trigger] t[j]).2 && t[j].1 < usize::MAX
            &&& forall|i: int, j: int| 0 <= i < j < t.len() ==> (t[i].0, t[i].1) != (t[j].0, t[j].1)
        };
    let s = b.as_slice();
    assert(s@ == flex_flags(t));
    match load_flags(s) {
        Ok(g) => g,
        Err(_) => FlagIndex::new(),
    }
}

/// A frontier snapshot as the bytes of its checkpoint file.
pub fn save_frontier(f: &Frontier) -> (r: Vec<u8>)
    requires
        f.wf(),
    ensures
        r@ == flex_frontier(f.listing()),
{
    let t = f.to_triples();
    match encode_frontier(&t) {
        Ok(b) => b,
        Err(_) => Vec::new(),
    }
}

/// A frontier snapshot read back from the bytes of its checkpoint file; a
/// later triple wins over an earlier one with the same key.
pub fn load_frontier(b: &[u8]) -> (r: Frontier)
    requires
        exists|t: Seq<(usize, usize, Seq<nat>)>| b@ == flex_frontier(t),
    ensures
        r.wf(),
        forall|t: Seq<(usize, usize, Seq<nat>)>|
            b@ == #[trigger] flex_frontier(t) ==> r@ == assoc_map(keyed(t)),
{
    match decode_frontier(b) {
        Ok(t) => Frontier::from_triples(&t),
        Err(_) => Frontier::new(),
    }
}

/// Loading what was saved gives the same frontier back.
pub fn reload_frontier(f: &Frontier) -> (r: Frontier)
    requires
        f.wf(),
    ensures
        r.wf(),
        r@ == f@,
{
    let b = save_frontier(f);
    let s = b.as_slice();
    proof {
        f.lemma_listing();
        assert(s@ == flex_frontier(f.listing()));
    }
    load_frontier(s)
}

} // verus!
