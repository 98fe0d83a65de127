//! What the engines read from the store and what they ask of their driver.

use vstd::prelude::*;
use crate::bitmap::{members, serialized_ids, deserialize};
use crate::key::{FacetGroupKey, FacetError};

verus! {

/// The value of one group: how many keys of the level below it gathers, and
/// the documents of every value that it covers.
pub struct FacetGroupValue {
    pub size: u8,
    pub bitmap: roaring::RoaringBitmap,
}

impl FacetGroupValue {
    /// Reads a value from its bytes: the group size, then the documents as a
    /// serialized bitmap.
    pub fn decode(bytes: &[u8]) -> (r: Result<FacetGroupValue, FacetError>)
        ensures
            r is Ok <==> bytes@.len() > 0 && serialized_ids(bytes@.subrange(1, bytes@.len() as int)) is Some,
            r matches Err(e) ==> e == FacetError::Decoding,
            r matches Ok(v) ==> {
                &&& v.size == bytes@[0]
                &&& serialized_ids(bytes@.subrange(1, bytes@.len() as int)) == Some(members(v.bitmap))
            },
    {
        if bytes.len() == 0 {
            return Err(FacetError::Decoding);
        }
        let rest = vstd::slice::slice_subrange(bytes, 1, bytes.len());
        match deserialize(rest) {
            Some(bitmap) => Ok(FacetGroupValue { size: bytes[0], bitmap }),
            None => Err(FacetError::Decoding),
        }
    }
}

/// What the driver of an engine does next.
///
/// The driver holds one open scan of the store for each frame of the engine,
/// innermost last; `Open` and `Close` keep the two stacks in step.
pub enum Step {
    /// Read the next entry of the innermost open scan and hand it to the
    /// engine, or tell the engine that the scan has no entry left. Only a
    /// `Read` from `poll` allows a read: after a `Read` from `on_entry` the
    /// driver calls `poll` first, since the scan may have yielded all the
    /// entries it was opened for.
    Read,
    /// Yield these documents: the candidates that share the facet value of
    /// the level-0 entry just handed in.
    Emit(roaring::RoaringBitmap),
    /// Open a scan that starts at this key and make it the innermost one.
    Open(FacetGroupKey),
    /// Open a scan that goes down in key order from `end` (itself read only
    /// where `end_included`) to `start`, and make it the innermost one.
    OpenBackward { start: FacetGroupKey, end: FacetGroupKey, end_included: bool },
    /// Drop the innermost open scan.
    Close,
    /// The sequence has ended: nothing more is read or yielded.
    Finished,
}

/// The union of the sets of a sequence.
pub open spec fn union_of(s: Seq<Set<u32>>) -> Set<u32>
    decreases s.len(),
{
    if s.len() == 0 {
        Set::empty()
    } else {
        union_of(s.drop_last()).union(s.last())
    }
}

/// Whether the sets of a sequence are pairwise disjoint.
pub open spec fn pairwise_disjoint(s: Seq<Set<u32>>) -> bool
    decreases s.len(),
{
    s.len() == 0 || (pairwise_disjoint(s.drop_last()) && union_of(s.drop_last()).disjoint(s.last()))
}

/// Taking the innermost set off a stack of pairwise disjoint sets.
pub proof fn lemma_pop(p: Seq<Set<u32>>)
    requires
        p.len() > 0,
        pairwise_disjoint(p),
    ensures
        pairwise_disjoint(p.drop_last()),
        union_of(p) == union_of(p.drop_last()) + p.last(),
        union_of(p.drop_last()).disjoint(p.last()),
{
}

/// Shrinking the innermost set of a stack of pairwise disjoint sets.
pub proof fn lemma_shrink_last(p: Seq<Set<u32>>, x: Set<u32>)
    requires
        p.len() > 0,
        pairwise_disjoint(p),
        x.subset_of(p.last()),
    ensures
        p.update(p.len() - 1, x).drop_last() == p.drop_last(),
        pairwise_disjoint(p.update(p.len() - 1, x)),
        union_of(p.update(p.len() - 1, x)) == union_of(p.drop_last()) + x,
{
    let q = p.update(p.len() - 1, x);
    assert(q.drop_last() =~= p.drop_last());
    assert(q.last() == x);
}

/// Pushing a set onto a stack of sets.
pub proof fn lemma_push(p: Seq<Set<u32>>, x: Set<u32>)
    ensures
        p.push(x).drop_last() == p,
        p.push(x).last() == x,
        union_of(p.push(x)) == union_of(p) + x,
        pairwise_disjoint(p.push(x)) == (pairwise_disjoint(p) && union_of(p).disjoint(x)),
{
    assert(p.push(x).drop_last() =~= p);
}

} // verus!
