//! The `data` field of an `octomap_msgs/Octomap` message.
//!
//! The message carries the resolution and the tree id in their own fields,
//! so `data` holds only the node payload, without the text header of a map
//! file. ROS types it `int8[]`; the bytes are reinterpreted, never changed.

use vstd::prelude::*;
use vstd::string::StringSliceAdditionalSpecFns;

verus! {

/// The tree type id this crate reads and writes.
pub const TREE_ID: &'static str = "OcTree";

/// A message's tree id names the tree class this crate implements.
pub fn supported_tree_id(id: &str) -> (r: bool)
    ensures
        r == (id.spec_bytes() == TREE_ID.spec_bytes()),
{
    let a = id.as_bytes();
    let b = TREE_ID.as_bytes();
    if a.len() != b.len() {
        return false;
    }
    let mut i: usize = 0;
    while i < a.len()
        invariant
            i <= a@.len(),
            a@.len() == b@.len(),
            a@ == id.spec_bytes(),
            b@ == TREE_ID.spec_bytes(),
            forall|j: int| 0 <= j < i ==> a@[j] == b@[j],
        decreases a@.len() - i,
    {
        if a[i] != b[i] {
            return false;
        }
        i += 1;
    }
    assert(a@ =~= b@);
    true
}

/// Reinterprets message bytes as signed, for an `int8[]` field: a pure sign
/// reinterpretation, `0xFF` becoming `-1`.
pub fn to_i8(data: &[u8]) -> (r: Vec<i8>)
    ensures
        r@ == data@.map_values(|b: u8| b as i8),
{
    let mut r: Vec<i8> = Vec::new();
    let mut i: usize = 0;
    while i < data.len()
        invariant
            i <= data@.len(),
            r@ == data@.take(i as int).map_values(|b: u8| b as i8),
        decreases data@.len() - i,
    {
        r.push(#[verifier::truncate] (data[i] as i8));
        i += 1;
        proof {
            assert(r@ =~= data@.take(i as int).map_values(|b: u8| b as i8));
        }
    }
    proof {
        assert(data@.take(data@.len() as int) =~= data@);
    }
    r
}

/// Reinterprets an `int8[]` field's contents as bytes.
pub fn from_i8(data: &[i8]) -> (r: Vec<u8>)
    ensures
        r@ == data@.map_values(|b: i8| b as u8),
{
    let mut r: Vec<u8> = Vec::new();
    let mut i: usize = 0;
    while i < data.len()
        invariant
            i <= data@.len(),
            r@ == data@.take(i as int).map_values(|b: i8| b as u8),
        decreases data@.len() - i,
    {
        r.push(#[verifier::truncate] (data[i] as u8));
        i += 1;
        proof {
            assert(r@ =~= data@.take(i as int).map_values(|b: i8| b as u8));
        }
    }
    proof {
        assert(data@.take(data@.len() as int) =~= data@);
    }
    r
}

/// The signed and unsigned views of a payload hold the same bits: turning
/// bytes signed and back gives the bytes again.
pub proof fn law_i8_round_trip(data: Seq<u8>)
    ensures
        data.map_values(|b: u8| b as i8).map_values(|b: i8| b as u8) == data,
{
    let back = data.map_values(|b: u8| b as i8).map_values(|b: i8| b as u8);
    assert forall|i: int| 0 <= i < data.len() implies back[i] == data[i] by {
        let b = data[i];
        assert((b as i8) as u8 == b) by (bit_vector);
    }
    assert(back =~= data);
}

} // verus!
