//! Arbitrary-precision naturals, as provided by `num_bigint::BigUint`.
use num_bigint::BigUint;
use vstd::prelude::*;

verus! {

#[verifier::external_type_specification]
#[verifier::external_body]
pub struct ExBigUint(BigUint);

/// The natural number that a `BigUint` denotes: what the value holds, read
/// through the wrappers below, which are the only operations the library uses.
pub uninterp spec fn nat_of(b: BigUint) -> nat;

/// The numbers held by a sequence of `BigUint`s.
pub open spec fn nats(v: Seq<BigUint>) -> Seq<nat> {
    v.map_values(|b: BigUint| nat_of(b))
}

/// Relies on `<BigUint as num_traits::One>::one`: the number one.
#[verifier::external_body]
pub(crate) fn big_one() -> (r: BigUint)
    ensures
        nat_of(r) == 1,
{
    <BigUint as num_traits::One>::one()
}

/// Relies on `<&BigUint as Add<&BigUint>>::add`: the exact sum.
#[verifier::external_body]
pub(crate) fn big_add(a: &BigUint, b: &BigUint) -> (r: BigUint)
    ensures
        nat_of(r) == nat_of(*a) + nat_of(*b),
{
    a + b
}

/// Relies on `<BigUint as Clone>::clone`: a copy of the same number.
#[verifier::external_body]
pub(crate) fn big_clone(a: &BigUint) -> (r: BigUint)
    ensures
        nat_of(r) == nat_of(*a),
{
    a.clone()
}

/// A copy of a coefficient vector, entry by entry.
pub fn clone_nats(v: &Vec<BigUint>) -> (r: Vec<BigUint>)
    ensures
        nats(r@) == nats(v@),
{
    let mut r: Vec<BigUint> = Vec::with_capacity(v.len());
    for i in 0..v.len()
        invariant
            r@.len() == i,
            forall|j: int| 0 <= j < i ==> nat_of(#[trigger] r@[j]) == nat_of(v@[j]),
    {
        r.push(big_clone(&v[i]));
    }
    assert(nats(r@) =~= nats(v@));
    r
}

} // verus!
