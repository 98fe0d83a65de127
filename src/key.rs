//! Facet group keys and their byte layout: the field id as two big-endian
//! bytes, the level as one byte, then the encoded left bound.

use vstd::prelude::*;

verus! {

/// The key of one group of the hierarchy.
pub struct FacetGroupKey {
    pub field_id: u16,
    pub level: u8,
    pub left_bound: Vec<u8>,
}

/// Why a key or a value read from the store could not be used.
#[derive(Debug, Clone, Copy, PartialEq, Eq, Structural)]
pub enum FacetError {
    /// A key or value does not follow its byte layout.
    Decoding,
}

/// The high and low byte of a field id, most significant first.
pub open spec fn field_bytes(field_id: u16) -> Seq<u8> {
    seq![(field_id / 256) as u8, (field_id % 256) as u8]
}

/// The bound held by the bytes of a key: what follows its first three bytes.
pub open spec fn bound_part(bytes: Seq<u8>) -> Seq<u8> {
    bytes.subrange(3, bytes.len() as int)
}

/// The bytes of a key with these parts.
pub open spec fn key_bytes(field_id: u16, level: u8, left_bound: Seq<u8>) -> Seq<u8> {
    field_bytes(field_id).push(level) + left_bound
}

impl FacetGroupKey {
    /// The key with its bound as a sequence, for contracts.
    pub open spec fn parts(&self) -> (u16, u8, Seq<u8>) {
        (self.field_id, self.level, self.left_bound@)
    }

    /// The bytes of this key in the store.
    pub fn encode(&self) -> (r: Vec<u8>)
        ensures
            r@ == key_bytes(self.field_id, self.level, self.left_bound@),
    {
        let mut r = field_prefix(self.field_id);
        r.push(self.level);
        let mut i: usize = 0;
        while i < self.left_bound.len()
            invariant
                i <= self.left_bound@.len(),
                r@ == key_bytes(self.field_id, self.level, self.left_bound@.take(i as int)),
            decreases self.left_bound@.len() - i,
        {
            r.push(self.left_bound[i]);
            i += 1;
            proof {
                assert(self.left_bound@.take(i as int) =~= self.left_bound@.take(i - 1).push(
                    self.left_bound@[i - 1],
                ));
            }
        }
        assert(self.left_bound@.take(i as int) =~= self.left_bound@);
        r
    }

    /// Reads a key from its bytes: `None` when there are fewer than the three
    /// bytes of the field id and the level.
    pub fn decode(bytes: &[u8]) -> (r: Option<FacetGroupKey>)
        ensures
            bytes@.len() < 3 <==> r is None,
            r matches Some(k) ==> key_bytes(k.field_id, k.level, k.left_bound@) == bytes@,
            r matches Some(k) ==> k.level == bytes@[2] && k.left_bound@ == bound_part(bytes@),
    {
        if bytes.len() < 3 {
            return None;
        }
        let field_id: u16 = (bytes[0] as u16) * 256 + (bytes[1] as u16);
        let level = bytes[2];
        let mut left_bound: Vec<u8> = Vec::new();
        let mut i: usize = 3;
        while i < bytes.len()
            invariant
                3 <= i <= bytes@.len(),
                left_bound@ == bytes@.subrange(3, i as int),
            decreases bytes@.len() - i,
        {
            left_bound.push(bytes[i]);
            i += 1;
            proof {
                assert(bytes@.subrange(3, i as int) =~= bytes@.subrange(3, i - 1).push(
                    bytes@[i - 1],
                ));
            }
        }
        let k = FacetGroupKey { field_id, level, left_bound };
        assert(field_bytes(field_id) =~= bytes@.take(2));
        assert(key_bytes(k.field_id, k.level, k.left_bound@) =~= bytes@);
        Some(k)
    }
}

/// The two bytes that begin every key of a field.
pub fn field_prefix(field_id: u16) -> (r: Vec<u8>)
    ensures
        r@ == field_bytes(field_id),
{
    let mut r: Vec<u8> = Vec::new();
    r.push((field_id / 256) as u8);
    r.push((field_id % 256) as u8);
    assert(r@ =~= field_bytes(field_id));
    r
}

/// The three bytes that begin every level-0 key of a field.
pub fn level0_prefix(field_id: u16) -> (r: Vec<u8>)
    ensures
        r@ == field_bytes(field_id).push(0u8),
{
    let mut r = field_prefix(field_id);
    r.push(0u8);
    r
}

/// The smallest (or, read from a reverse scan, the largest) level-0 value of
/// a field, from the first key that a scan over its level-0 prefix met.
pub fn bound_from_first_key(first_key: Option<&[u8]>) -> (r: Result<Option<Vec<u8>>, FacetError>)
    ensures
        first_key is None ==> r == Ok::<Option<Vec<u8>>, FacetError>(None),
        first_key matches Some(b) ==> (b@.len() < 3 <==> r is Err),
        first_key matches Some(b) ==> (r matches Ok(o) ==> (o matches Some(v) && v@ == bound_part(
            b@,
        ))),
{
    match first_key {
        None => Ok(None),
        Some(b) => match FacetGroupKey::decode(b) {
            None => Err(FacetError::Decoding),
            Some(k) => {
                assert(k.left_bound@ =~= bound_part(b@));
                Ok(Some(k.left_bound))
            },
        },
    }
}

/// The deepest level of a field, from the first key that a reverse scan over
/// the field's prefix met; 0 where the field has no key.
pub fn level_from_last_key(last_key: Option<&[u8]>) -> (r: Result<u8, FacetError>)
    ensures
        last_key is None ==> r == Ok::<u8, FacetError>(0),
        last_key matches Some(b) ==> (b@.len() < 3 <==> r is Err),
        last_key matches Some(b) ==> (r matches Ok(l) ==> l == b@[2]),
{
    match last_key {
        None => Ok(0),
        Some(b) => match FacetGroupKey::decode(b) {
            None => Err(FacetError::Decoding),
            Some(k) => Ok(k.level),
        },
    }
}

} // verus!
