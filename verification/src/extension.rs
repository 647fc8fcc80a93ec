//! The quadratic extension of the Goldilocks field, and the flattening of
//! extension elements into base-field sequences.

use vstd::prelude::*;
use crate::field::GoldilocksField;

verus! {

/// Degree of the extension: an element is this many base elements.
pub const EXT_DEGREE: usize = 2;

/// An element of the quadratic extension field, as an ordered pair of base
/// elements.  Only its shape matters here; extension arithmetic is not part
/// of this crate.
#[derive(Clone, Copy, Debug, PartialEq, Eq)]
pub struct QuadraticExtension(pub GoldilocksField, pub GoldilocksField);

/// The base-field sequence a sequence of extension elements flattens to.
pub open spec fn spec_flatten(s: Seq<QuadraticExtension>) -> Seq<GoldilocksField> {
    Seq::new(2 * s.len(), |i: int| if i % 2 == 0 { s[i / 2].0 } else { s[i / 2].1 })
}

/// The extension-element sequence a base-field sequence chunks into.
pub open spec fn spec_unflatten(s: Seq<GoldilocksField>) -> Seq<QuadraticExtension> {
    Seq::new(s.len() / 2, |i: int| QuadraticExtension(s[2 * i], s[2 * i + 1]))
}

/// Write out each extension element as its two base components, in order.
pub fn flatten(v: &Vec<QuadraticExtension>) -> (r: Vec<GoldilocksField>)
    requires
        v@.len() * 2 <= usize::MAX,
    ensures
        r@ == spec_flatten(v@),
{
    let mut r: Vec<GoldilocksField> = Vec::new();
    let mut i: usize = 0;
    while i < v.len()
        invariant
            i <= v@.len(),
            v@.len() * 2 <= usize::MAX,
            r@.len() == 2 * i,
            forall|j: int| 0 <= j < r@.len() ==> r@[j] == spec_flatten(v@)[j],
        decreases v@.len() - i,
    {
        r.push(v[i].0);
        r.push(v[i].1);
        i += 1;
    }
    proof {
        assert(r@ =~= spec_flatten(v@));
    }
    r
}

/// Chunk a base-field sequence of even length back into extension elements.
pub fn unflatten(v: &Vec<GoldilocksField>) -> (r: Vec<QuadraticExtension>)
    requires
        v@.len() % 2 == 0,
    ensures
        r@ == spec_unflatten(v@),
{
    let mut r: Vec<QuadraticExtension> = Vec::new();
    let mut i: usize = 0;
    while i < v.len() / 2
        invariant
            i <= v@.len() / 2,
            v@.len() % 2 == 0,
            r@.len() == i,
            forall|j: int| 0 <= j < r@.len() ==> r@[j] == spec_unflatten(v@)[j],
        decreases v@.len() / 2 - i,
    {
        r.push(QuadraticExtension(v[2 * i], v[2 * i + 1]));
        i += 1;
    }
    proof {
        assert(r@ =~= spec_unflatten(v@));
    }
    r
}

/// Flattening and then chunking gives back the original sequence.
pub proof fn lemma_unflatten_flatten(s: Seq<QuadraticExtension>)
    ensures
        spec_unflatten(spec_flatten(s)) == s,
{
    assert(spec_unflatten(spec_flatten(s)) =~= s);
}

/// Chunking and then flattening gives back any even-length sequence.
pub proof fn lemma_flatten_unflatten(s: Seq<GoldilocksField>)
    requires
        s.len() % 2 == 0,
    ensures
        spec_flatten(spec_unflatten(s)) == s,
{
    assert(spec_flatten(spec_unflatten(s)) =~= s);
}

} // verus!
